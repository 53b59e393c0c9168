use vstd::prelude::*;
use crate::error::DataLayoutError;
use crate::fixed::FixedLayout;
use crate::layout::{DataLayoutKind, Encodable, PrefixDecodable};
use crate::value::{values_view, FieldValue};
use crate::variable::{
    all_fit, decode_len, encoding, shapes_ok, LayoutView, OptionEncoding, VariableLayout,
};

verus! {

impl DataLayoutKind for FixedLayout {
    const IS_FIXED: bool = true;
}

impl DataLayoutKind for VariableLayout {
    const IS_FIXED: bool = false;
}

/// The values of a record together with the variable-offset layout they are
/// encoded with.
#[derive(Debug)]
pub struct VariableRecord<'l> {
    layout: &'l VariableLayout,
    values: &'l [FieldValue],
}

impl<'l> VariableRecord<'l> {
    #[verifier::type_invariant]
    spec fn inv(self) -> bool {
        self.layout.wf() && shapes_ok(self.layout@.fields, values_view(self.values@))
    }

    pub closed spec fn spec_layout(self) -> &'l VariableLayout {
        self.layout
    }

    pub closed spec fn spec_values(self) -> Seq<FieldValue> {
        self.values@
    }

    /// Pairs `values` with the layout they are encoded with; each value must
    /// have the shape of its field.
    pub fn new(layout: &'l VariableLayout, values: &'l [FieldValue]) -> (r: Self)
        requires
            layout.wf(),
            shapes_ok(layout@.fields, values_view(values@)),
        ensures
            r.spec_layout() == layout,
            r.spec_values() == values@,
    {
        VariableRecord { layout, values }
    }
}

impl<'l> Encodable for VariableRecord<'l> {
    open spec fn spec_encoded_len(&self) -> Result<nat, DataLayoutError> {
        if all_fit(self.spec_layout()@.fields, values_view(self.spec_values()))
            && self.spec_encoding().len() <= usize::MAX {
            Ok(self.spec_encoding().len())
        } else {
            Err(DataLayoutError::LengthExceedsCapacity)
        }
    }

    open spec fn spec_encoding(&self) -> Seq<u8> {
        encoding(self.spec_layout()@.fields, values_view(self.spec_values()))
    }

    proof fn lemma_encoding_len(&self) {
    }

    fn encoded_len(&self) -> (r: Result<usize, DataLayoutError>) {
        proof {
            use_type_invariant(self);
            self.layout.lemma_wf();
            if all_fit(self.layout@.fields, values_view(self.values@)) {
                crate::variable::lemma_encoding_max(self.layout@.fields, values_view(self.values@));
            }
        }
        self.layout.encoded_len(self.values)
    }

    fn encode_to<'a>(&self, out: &'a mut [u8]) -> (r: Result<&'a mut [u8], DataLayoutError>) {
        proof {
            use_type_invariant(self);
            self.layout.lemma_wf();
            if all_fit(self.layout@.fields, values_view(self.values@)) {
                crate::variable::lemma_encoding_max(self.layout@.fields, values_view(self.values@));
            }
        }
        match self.layout.encode_to(self.values, out) {
            Ok(n) => {
                let (_, rest) = out.split_at_mut(n);
                Ok(rest)
            },
            Err(e) => Err(e),
        }
    }
}

impl<'a> PrefixDecodable<'a> for VariableLayout {
    type View = LayoutView<'a>;

    /// Checked layouts with tagged options are self-delimiting.
    open spec fn spec_prefix_ready(&self) -> bool {
        self.wf() && self@.option_encoding == OptionEncoding::Tagged
    }

    open spec fn spec_prefix_len(&self, bytes: Seq<u8>, address_mod_8: nat) -> Result<
        nat,
        DataLayoutError,
    > {
        decode_len(self@, bytes, address_mod_8)
    }

    /// The view checks the whole encoding at the front of `bytes` and holds
    /// exactly its bytes.
    open spec fn spec_prefix_view(&self, v: LayoutView<'a>, bytes: Seq<u8>, address_mod_8: nat) -> bool {
        &&& v.wf()
        &&& v.spec_layout() == self@
        &&& decode_len(self@, bytes, address_mod_8) matches Ok(n)
        &&& v.spec_bytes() == bytes.take(n as int)
        &&& v.spec_present() == Seq::<bool>::empty()
        &&& v.spec_base() == address_mod_8
    }

    fn decode_prefix(&'a self, bytes: &'a [u8], address_mod_8: usize) -> (r: Result<
        (LayoutView<'a>, &'a [u8]),
        DataLayoutError,
    >)
        ensures
            r matches Ok((view, _)) ==> {
                &&& view.wf()
                &&& view.spec_layout() == self@
                &&& decode_len(self@, bytes@, address_mod_8 as nat) matches Ok(n)
                &&& view.spec_bytes() == bytes@.take(n as int)
            },
    {
        VariableLayout::decode_prefix(self, bytes, address_mod_8)
    }
}

} // verus!
