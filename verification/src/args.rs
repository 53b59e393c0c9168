use vstd::prelude::*;
use crate::variable::{BufferOffset, OptionEncoding};

verus! {

// The parameter lists that name a layout's options, such as
// `buffer_offset = 1, option = implicit`.
//
// Grammar, over bytes, with white space (space, tab, line breaks, vertical
// tab, form feed) and comments allowed between tokens:
//
//     list  := (param (',' param)* ','?)?
//     param := name | name '=' value
//     value := integer | name
//
// A name is a letter or `_` followed by letters, digits and `_`. An integer
// is a decimal digit followed by digits and `_`, or `0x`, `0o` or `0b`
// followed by hexadecimal, octal or binary digits and `_` (at least one
// digit), and then an optional integer type suffix (`u8` ... `u128`,
// `usize`, `i8` ... `i128`, `isize`). A comment is `//` up to the end of the
// line or `/*` up to its matching `*/` (block comments nest); doc comments
// (`///`, `//!`, `/**`, `/*!`) are not comments here, as they stand for
// attributes.

/// The options a variable-offset layout is declared with.
#[derive(Clone, Copy, Debug, PartialEq, Eq, Structural)]
pub struct LayoutArgs {
    pub buffer_offset: BufferOffset,
    pub option_encoding: OptionEncoding,
}

/// Why a parameter list is rejected. `index` counts the parameters from 0.
#[derive(Clone, Copy, Debug, PartialEq, Eq, Structural)]
pub enum LayoutArgsError {
    /// No `buffer_offset = 0..=7` or `buffer_offset = unaligned` was given.
    MissingBufferOffset,
    /// The text is not a parameter list.
    Syntax,
    /// A parameter other than `option = ..` and `buffer_offset = ..`.
    UnknownParameter { index: usize },
    /// `option` is given something other than a name (a number, `true` or
    /// `false`).
    OptionForm { index: usize },
    /// `option` is given a name other than `implicit`.
    OptionNotImplicit { index: usize },
    /// `buffer_offset` is given an integer above 7.
    BufferOffsetRange { index: usize },
    /// `buffer_offset` is given a name other than `unaligned`.
    BufferOffsetForm { index: usize },
    /// A fixed-offset layout takes no parameters.
    ParametersNotSupported,
}

pub open spec fn is_space(c: u8) -> bool {
    c == 32 || c == 9 || c == 10 || c == 11 || c == 12 || c == 13
}

pub open spec fn is_name_start(c: u8) -> bool {
    (97 <= c <= 122) || (65 <= c <= 90) || c == 95
}

pub open spec fn is_digit(c: u8) -> bool {
    48 <= c <= 57
}

pub open spec fn is_name_char(c: u8) -> bool {
    is_name_start(c) || is_digit(c)
}

/// Whether a `//` comment that is not a doc comment starts at `i`.
pub open spec fn line_comment_at(s: Seq<u8>, i: nat) -> bool {
    &&& i + 1 < s.len()
    &&& s[i as int] == 47 && s[i + 1int] == 47
    &&& !(i + 2 < s.len() && s[i + 2int] == 33)
    &&& !(i + 2 < s.len() && s[i + 2int] == 47 && !(i + 3 < s.len() && s[i + 3int] == 47))
}

/// Whether a `/*` comment that is not a doc comment starts at `i`.
pub open spec fn block_comment_at(s: Seq<u8>, i: nat) -> bool {
    &&& i + 1 < s.len()
    &&& s[i as int] == 47 && s[i + 1int] == 42
    &&& !(i + 2 < s.len() && s[i + 2int] == 33)
    &&& !(i + 2 < s.len() && s[i + 2int] == 42 && !(i + 3 < s.len() && (s[i + 3int] == 42 || s[i + 3int]
        == 47)))
}

/// The index of the line break that ends the line holding `j`, or the end.
pub open spec fn line_end(s: Seq<u8>, j: nat) -> nat
    decreases s.len() - j,
{
    if j < s.len() && s[j as int] != 10 {
        line_end(s, j + 1)
    } else {
        j
    }
}

/// The index after the `*/` that closes a block comment, `depth` levels deep
/// at `j`; `None` when the text ends first.
pub open spec fn block_end(s: Seq<u8>, j: nat, depth: nat) -> Option<nat>
    decreases s.len() - j,
{
    if j >= s.len() {
        None
    } else if j + 1 < s.len() && s[j as int] == 42 && s[j + 1int] == 47 {
        if depth <= 1 {
            Some(j + 2)
        } else {
            block_end(s, j + 2, (depth - 1) as nat)
        }
    } else if j + 1 < s.len() && s[j as int] == 47 && s[j + 1int] == 42 {
        block_end(s, j + 2, depth + 1)
    } else {
        block_end(s, j + 1, depth)
    }
}

/// The index after a comment that starts at `i`, or `i` when none does (or
/// a block comment is not closed).
pub open spec fn comment_end(s: Seq<u8>, i: nat) -> nat {
    if line_comment_at(s, i) {
        line_end(s, i + 2)
    } else if block_comment_at(s, i) {
        match block_end(s, i + 2, 1) {
            Some(e) => e,
            None => i,
        }
    } else {
        i
    }
}

pub proof fn lemma_line_end(s: Seq<u8>, j: nat)
    requires
        j <= s.len(),
    ensures
        j <= line_end(s, j) <= s.len(),
    decreases s.len() - j,
{
    if j < s.len() && s[j as int] != 10 {
        lemma_line_end(s, j + 1);
    }
}

pub proof fn lemma_block_end(s: Seq<u8>, j: nat, depth: nat)
    ensures
        block_end(s, j, depth) matches Some(e) ==> j < e <= s.len(),
    decreases s.len() - j,
{
    if j < s.len() {
        if j + 1 < s.len() && s[j as int] == 42 && s[j + 1int] == 47 {
            if depth > 1 {
                lemma_block_end(s, j + 2, (depth - 1) as nat);
            }
        } else if j + 1 < s.len() && s[j as int] == 47 && s[j + 1int] == 42 {
            lemma_block_end(s, j + 2, depth + 1);
        } else {
            lemma_block_end(s, j + 1, depth);
        }
    }
}

pub proof fn lemma_comment_end(s: Seq<u8>, i: nat)
    requires
        i <= s.len(),
    ensures
        i <= comment_end(s, i) <= s.len(),
{
    lemma_block_end(s, i + 2, 1);
    if line_comment_at(s, i) {
        lemma_line_end(s, i + 2);
    }
}

/// The first index from `i` on that holds neither white space nor a comment.
pub open spec fn skip_space(s: Seq<u8>, i: nat) -> nat
    decreases s.len() - i,
{
    if i < s.len() && is_space(s[i as int]) {
        skip_space(s, i + 1)
    } else if i < s.len() && comment_end(s, i) > i {
        proof {
            lemma_comment_end(s, i);
        }
        skip_space(s, comment_end(s, i))
    } else {
        i
    }
}

/// The end of the run of name characters from `i`.
pub open spec fn name_end(s: Seq<u8>, i: nat) -> nat
    decreases s.len() - i,
{
    if i < s.len() && is_name_char(s[i as int]) {
        name_end(s, i + 1)
    } else {
        i
    }
}

/// Whether `c` is a digit in base `radix` (2, 8, 10 or 16).
pub open spec fn is_digit_in(c: u8, radix: nat) -> bool {
    if radix == 16 {
        is_digit(c) || (97 <= c <= 102) || (65 <= c <= 70)
    } else if radix == 8 {
        48 <= c <= 55
    } else if radix == 2 {
        c == 48 || c == 49
    } else {
        is_digit(c)
    }
}

/// The value of a digit character.
pub open spec fn digit_value(c: u8) -> nat {
    if c <= 57 {
        (c - 48) as nat
    } else if c >= 97 {
        (c - 87) as nat
    } else {
        (c - 55) as nat
    }
}

/// The base of an integer literal starting at `v`: a `0x`, `0o` or `0b`
/// prefix names it, else it is decimal.
pub open spec fn literal_radix(s: Seq<u8>, v: nat) -> nat {
    if v + 1 < s.len() && s[v as int] == 48 && s[v + 1int] == 120 {
        16
    } else if v + 1 < s.len() && s[v as int] == 48 && s[v + 1int] == 111 {
        8
    } else if v + 1 < s.len() && s[v as int] == 48 && s[v + 1int] == 98 {
        2
    } else {
        10
    }
}

/// The end of the run of digits in base `radix` and `_` from `i`.
pub open spec fn digits_end(s: Seq<u8>, i: nat, radix: nat) -> nat
    decreases s.len() - i,
{
    if i < s.len() && (is_digit_in(s[i as int], radix) || s[i as int] == 95) {
        digits_end(s, i + 1, radix)
    } else {
        i
    }
}

/// The value of digits in base `radix`, skipping `_`.
pub open spec fn digits_value(d: Seq<u8>, radix: nat) -> nat
    decreases d.len(),
{
    if d.len() == 0 {
        0
    } else if d.last() == 95 {
        digits_value(d.drop_last(), radix)
    } else {
        radix * digits_value(d.drop_last(), radix) + digit_value(d.last())
    }
}

/// Whether `d` holds a digit, not only `_`.
pub open spec fn has_digit(d: Seq<u8>) -> bool {
    exists|k: int| 0 <= k < d.len() && d[k] != 95
}

/// Whether `sfx` is empty or the name of an integer type.
pub open spec fn int_suffix(sfx: Seq<u8>) -> bool {
    sfx.len() == 0 || {
        let w = sfx.skip(1);
        &&& sfx[0] == 117 || sfx[0] == 105
        &&& w == seq![56u8] || w == seq![49u8, 54u8] || w == seq![51u8, 50u8] || w == seq![
            54u8,
            52u8,
        ] || w == seq![49u8, 50u8, 56u8] || w == seq![115u8, 105u8, 122u8, 101u8]
    }
}

/// The value of a parameter.
pub enum ArgValue {
    Int(nat),
    Name(Seq<u8>),
}

/// One parameter: a bare name, or a name with a value.
pub enum ArgParam {
    Bare(Seq<u8>),
    Valued(Seq<u8>, ArgValue),
}

/// The parameter starting at `i`, and the index after it.
pub open spec fn parse_param(s: Seq<u8>, i: nat) -> Option<(ArgParam, nat)> {
    if i >= s.len() || !is_name_start(s[i as int]) {
        None
    } else {
        let j = name_end(s, i);
        let name = s.subrange(i as int, j as int);
        let k = skip_space(s, j);
        if k < s.len() && s[k as int] == 61 {
            let v = skip_space(s, k + 1);
            if v < s.len() && is_digit(s[v as int]) {
                let radix = literal_radix(s, v);
                let d = if radix == 10 {
                    v
                } else {
                    v + 2
                };
                let e = digits_end(s, d, radix);
                let f = name_end(s, e);
                let digits = s.subrange(d as int, e as int);
                if has_digit(digits) && int_suffix(s.subrange(e as int, f as int)) {
                    Some((ArgParam::Valued(name, ArgValue::Int(digits_value(digits, radix))), f))
                } else {
                    None
                }
            } else if v < s.len() && is_name_start(s[v as int]) {
                let e = name_end(s, v);
                Some((ArgParam::Valued(name, ArgValue::Name(s.subrange(v as int, e as int))), e))
            } else {
                None
            }
        } else {
            Some((ArgParam::Bare(name), j))
        }
    }
}

/// `option`
pub open spec fn word_option() -> Seq<u8> {
    seq![111u8, 112u8, 116u8, 105u8, 111u8, 110u8]
}

/// `buffer_offset`
pub open spec fn word_buffer_offset() -> Seq<u8> {
    seq![98u8, 117u8, 102u8, 102u8, 101u8, 114u8, 95u8, 111u8, 102u8, 102u8, 115u8, 101u8, 116u8]
}

/// `implicit`
pub open spec fn word_implicit() -> Seq<u8> {
    seq![105u8, 109u8, 112u8, 108u8, 105u8, 99u8, 105u8, 116u8]
}

/// `true`
pub open spec fn word_true() -> Seq<u8> {
    seq![116u8, 114u8, 117u8, 101u8]
}

/// `false`
pub open spec fn word_false() -> Seq<u8> {
    seq![102u8, 97u8, 108u8, 115u8, 101u8]
}

/// `unaligned`
pub open spec fn word_unaligned() -> Seq<u8> {
    seq![117u8, 110u8, 97u8, 108u8, 105u8, 103u8, 110u8, 101u8, 100u8]
}

/// What the parameters read so far give: the options, and the first error.
#[derive(Clone, Copy)]
pub struct ArgState {
    pub option_encoding: OptionEncoding,
    pub buffer_offset: Option<BufferOffset>,
    pub error: Option<LayoutArgsError>,
    pub count: usize,
}

/// The state after parameter `p`; after an error, parameters only count.
pub open spec fn apply_param(st: ArgState, p: ArgParam) -> ArgState {
    let index = st.count;
    let next = ArgState { count: (st.count + 1) as usize, ..st };
    if st.error is Some {
        next
    } else {
        match p {
            ArgParam::Valued(name, value) => if name == word_option() {
                match value {
                    ArgValue::Name(v) => if v == word_implicit() {
                        ArgState { option_encoding: OptionEncoding::Implicit, ..next }
                    } else if v == word_true() || v == word_false() {
                        ArgState {
                            error: Some(LayoutArgsError::OptionForm { index }),
                            ..next
                        }
                    } else {
                        ArgState {
                            error: Some(LayoutArgsError::OptionNotImplicit { index }),
                            ..next
                        }
                    },
                    ArgValue::Int(_) => ArgState {
                        error: Some(LayoutArgsError::OptionForm { index }),
                        ..next
                    },
                }
            } else if name == word_buffer_offset() {
                match value {
                    ArgValue::Int(v) => if v <= 7 {
                        ArgState { buffer_offset: Some(BufferOffset::Fixed(v as usize)), ..next }
                    } else {
                        ArgState {
                            error: Some(LayoutArgsError::BufferOffsetRange { index }),
                            ..next
                        }
                    },
                    ArgValue::Name(v) => if v == word_unaligned() {
                        ArgState { buffer_offset: Some(BufferOffset::Unaligned), ..next }
                    } else {
                        ArgState {
                            error: Some(LayoutArgsError::BufferOffsetForm { index }),
                            ..next
                        }
                    },
                }
            } else {
                ArgState { error: Some(LayoutArgsError::UnknownParameter { index }), ..next }
            },
            ArgParam::Bare(_) => ArgState {
                error: Some(LayoutArgsError::UnknownParameter { index }),
                ..next
            },
        }
    }
}

/// The result of a parameter list whose parameters all parsed.
pub open spec fn finish_args(st: ArgState) -> Result<LayoutArgs, LayoutArgsError> {
    match st.error {
        Some(e) => Err(e),
        None => match st.buffer_offset {
            Some(b) => Ok(LayoutArgs { buffer_offset: b, option_encoding: st.option_encoding }),
            None => Err(LayoutArgsError::MissingBufferOffset),
        },
    }
}

/// The result of the parameters from `i` on, in state `st`: a text that is
/// not a parameter list is `Syntax`, whatever its parameters say.
pub open spec fn args_from(s: Seq<u8>, i: nat, st: ArgState) -> Result<LayoutArgs, LayoutArgsError>
    decreases s.len() - i,
{
    let p = skip_space(s, i);
    if p >= s.len() {
        finish_args(st)
    } else {
        match parse_param(s, p) {
            None => Err(LayoutArgsError::Syntax),
            Some((param, next)) => {
                let st2 = apply_param(st, param);
                let t = skip_space(s, next);
                if t >= s.len() {
                    finish_args(st2)
                } else if s[t as int] == 44 && t >= i {
                    args_from(s, t + 1, st2)
                } else {
                    Err(LayoutArgsError::Syntax)
                }
            },
        }
    }
}

/// The state before any parameter: tagged options, no buffer offset.
pub open spec fn initial_state() -> ArgState {
    ArgState {
        option_encoding: OptionEncoding::Tagged,
        buffer_offset: None,
        error: None,
        count: 0,
    }
}

/// What a variable-offset layout's parameter list declares.
pub open spec fn layout_args(s: Seq<u8>) -> Result<LayoutArgs, LayoutArgsError> {
    args_from(s, 0, initial_state())
}


/// `line_end` on executable values.
fn line_end_at(s: &[u8], j: usize) -> (r: usize)
    requires
        j <= s@.len(),
    ensures
        r == line_end(s@, j as nat),
{
    let n = s.len();
    let mut k = j;
    while k < n && s[k] != 10
        invariant
            n == s@.len(),
            j <= k <= n,
            line_end(s@, j as nat) == line_end(s@, k as nat),
        decreases n - k,
    {
        k = k + 1;
    }
    k
}

/// `block_end` at depth 1 on executable values.
fn block_end_at(s: &[u8], j: usize) -> (r: Option<usize>)
    requires
        2 <= j <= s@.len(),
    ensures
        match r {
            Some(e) => block_end(s@, j as nat, 1) == Some(e as nat),
            None => block_end(s@, j as nat, 1) is None,
        },
{
    let n = s.len();
    let mut k = j;
    let mut depth: usize = 1;
    loop
        invariant
            n == s@.len(),
            j <= k <= n,
            1 <= depth <= k,
            block_end(s@, j as nat, 1) == block_end(s@, k as nat, depth as nat),
        decreases n - k,
    {
        if k >= n {
            return None;
        }
        if k + 1 < n && s[k] == 42 && s[k + 1] == 47 {
            if depth <= 1 {
                return Some(k + 2);
            }
            depth = depth - 1;
            k = k + 2;
        } else if k + 1 < n && s[k] == 47 && s[k + 1] == 42 {
            depth = depth + 1;
            k = k + 2;
        } else {
            k = k + 1;
        }
    }
}

/// `comment_end` on executable values.
fn comment_end_at(s: &[u8], i: usize) -> (r: usize)
    requires
        i <= s@.len(),
    ensures
        r == comment_end(s@, i as nat),
{
    let n = s.len();
    if i >= n {
        return i;
    }
    if i + 1 < n && s[i] == 47 && s[i + 1] == 47 && !(i + 2 < n && s[i + 2] == 33) && !(i + 2
        < n && s[i + 2] == 47 && !(i + 3 < n && s[i + 3] == 47)) {
        line_end_at(s, i + 2)
    } else if i + 1 < n && s[i] == 47 && s[i + 1] == 42 && !(i + 2 < n && s[i + 2] == 33) && !(i
        + 2 < n && s[i + 2] == 42 && !(i + 3 < n && (s[i + 3] == 42 || s[i + 3] == 47))) {
        match block_end_at(s, i + 2) {
            Some(e) => e,
            None => i,
        }
    } else {
        i
    }
}

/// `skip_space` on executable values.
fn skip_space_at(s: &[u8], i: usize) -> (r: usize)
    requires
        i <= s@.len(),
    ensures
        r == skip_space(s@, i as nat),
        i <= r <= s@.len(),
{
    let n = s.len();
    let mut j = i;
    loop
        invariant
            n == s@.len(),
            i <= j <= n,
            skip_space(s@, i as nat) == skip_space(s@, j as nat),
        decreases n - j,
    {
        if j < n && (s[j] == 32 || s[j] == 9 || s[j] == 10 || s[j] == 11 || s[j] == 12 || s[j]
            == 13) {
            j = j + 1;
        } else {
            let c = comment_end_at(s, j);
            proof {
                lemma_comment_end(s@, j as nat);
            }
            if j < n && c > j {
                j = c;
            } else {
                return j;
            }
        }
    }
}

/// Whether `c` may continue a name.
fn name_char(c: u8) -> (b: bool)
    ensures
        b == is_name_char(c),
{
    (97 <= c && c <= 122) || (65 <= c && c <= 90) || c == 95 || (48 <= c && c <= 57)
}

/// `name_end` on executable values.
fn name_end_at(s: &[u8], i: usize) -> (r: usize)
    requires
        i <= s@.len(),
    ensures
        r == name_end(s@, i as nat),
        i <= r <= s@.len(),
        forall|k: int| i <= k < r ==> is_name_char(#[trigger] s@[k]),
        i < s@.len() && is_name_char(s@[i as int]) ==> r > i,
{
    let n = s.len();
    let mut j = i;
    while j < n && name_char(s[j])
        invariant
            n == s@.len(),
            i <= j <= n,
            name_end(s@, i as nat) == name_end(s@, j as nat),
            forall|k: int| i <= k < j ==> is_name_char(#[trigger] s@[k]),
        decreases n - j,
    {
        j = j + 1;
    }
    j
}

/// Whether `c` is a digit in base `radix`.
fn digit_in(c: u8, radix: usize) -> (b: bool)
    ensures
        b == is_digit_in(c, radix as nat),
{
    if radix == 16 {
        (48 <= c && c <= 57) || (97 <= c && c <= 102) || (65 <= c && c <= 70)
    } else if radix == 8 {
        48 <= c && c <= 55
    } else if radix == 2 {
        c == 48 || c == 49
    } else {
        48 <= c && c <= 57
    }
}

/// `digits_end` on executable values.
fn digits_end_at(s: &[u8], i: usize, radix: usize) -> (r: usize)
    requires
        i <= s@.len(),
    ensures
        r == digits_end(s@, i as nat, radix as nat),
        i <= r <= s@.len(),
        forall|k: int| i <= k < r ==> is_digit_in(#[trigger] s@[k], radix as nat) || s@[k] == 95,
{
    let n = s.len();
    let mut j = i;
    while j < n && (digit_in(s[j], radix) || s[j] == 95)
        invariant
            n == s@.len(),
            i <= j <= n,
            digits_end(s@, i as nat, radix as nat) == digits_end(s@, j as nat, radix as nat),
            forall|k: int| i <= k < j ==> is_digit_in(#[trigger] s@[k], radix as nat) || s@[k] == 95,
        decreases n - j,
    {
        j = j + 1;
    }
    j
}

/// Whether `s[a..b]` holds a byte other than `_`.
fn has_digit_at(s: &[u8], a: usize, b: usize) -> (r: bool)
    requires
        a <= b <= s@.len(),
    ensures
        r == has_digit(s@.subrange(a as int, b as int)),
{
    let ghost d = s@.subrange(a as int, b as int);
    let mut k = a;
    while k < b
        invariant
            a <= k <= b <= s@.len(),
            d == s@.subrange(a as int, b as int),
            forall|q: int| 0 <= q < k - a ==> d[q] == 95,
        decreases b - k,
    {
        if s[k] != 95 {
            proof {
                assert(d[k - a] != 95);
            }
            return true;
        }
        k = k + 1;
    }
    false
}

/// The smaller of a number and 8.
pub open spec fn cap8(v: nat) -> nat {
    if v < 8 {
        v
    } else {
        8
    }
}

/// The value of the digits `s[a..b]` in base `radix`, capped at 8.
fn capped_value(s: &[u8], a: usize, b: usize, radix: usize) -> (r: usize)
    requires
        a <= b <= s@.len(),
        radix == 2 || radix == 8 || radix == 10 || radix == 16,
        forall|k: int| a <= k < b ==> is_digit_in(#[trigger] s@[k], radix as nat) || s@[k] == 95,
    ensures
        r == cap8(digits_value(s@.subrange(a as int, b as int), radix as nat)),
{
    let mut acc: usize = 0;
    let mut j = a;
    proof {
        assert(s@.subrange(a as int, a as int).len() == 0);
    }
    while j < b
        invariant
            a <= j <= b <= s@.len(),
            radix == 2 || radix == 8 || radix == 10 || radix == 16,
            forall|k: int| a <= k < b ==> is_digit_in(#[trigger] s@[k], radix as nat) || s@[k] == 95,
            acc == cap8(digits_value(s@.subrange(a as int, j as int), radix as nat)),
        decreases b - j,
    {
        let c = s[j];
        let ghost prev = s@.subrange(a as int, j as int);
        proof {
            let next = s@.subrange(a as int, j + 1);
            assert(next.drop_last() =~= prev);
            assert(next.last() == c);
            assert(is_digit_in(s@[j as int], radix as nat) || s@[j as int] == 95);
        }
        if c != 95 {
            let d: usize = if c <= 57 {
                (c - 48) as usize
            } else if c >= 97 {
                (c - 87) as usize
            } else {
                (c - 55) as usize
            };
            proof {
                let x = digits_value(prev, radix as nat);
                assert(d == digit_value(c));
                if x >= 8 {
                    assert(radix * x + d >= 8) by (nonlinear_arith)
                        requires
                            radix >= 2,
                            x >= 8,
                    ;
                }
                assert(d < 16);
                assert(acc <= 8);
                assert(radix * acc <= 16 * 8) by (nonlinear_arith)
                    requires
                        radix <= 16,
                        acc <= 8,
                ;
            }
            let v = radix * acc + d;
            acc = if v < 8 {
                v
            } else {
                8
            };
        }
        j = j + 1;
    }
    acc
}

/// Whether `s[a..b]` is empty or the name of an integer type.
fn suffix_ok(s: &[u8], a: usize, b: usize) -> (r: bool)
    requires
        a <= b <= s@.len(),
    ensures
        r == int_suffix(s@.subrange(a as int, b as int)),
{
    let ghost sfx = s@.subrange(a as int, b as int);
    if a == b {
        return true;
    }
    if s[a] != 117 && s[a] != 105 {
        return false;
    }
    let ghost w = sfx.skip(1);
    let len = b - a - 1;
    let c = a + 1;
    proof {
        assert(w =~= s@.subrange(c as int, b as int));
    }
    let r = if len == 1 {
        s[c] == 56
    } else if len == 2 {
        (s[c] == 49 && s[c + 1] == 54) || (s[c] == 51 && s[c + 1] == 50) || (s[c] == 54 && s[c
            + 1] == 52)
    } else if len == 3 {
        s[c] == 49 && s[c + 1] == 50 && s[c + 2] == 56
    } else if len == 4 {
        s[c] == 115 && s[c + 1] == 105 && s[c + 2] == 122 && s[c + 3] == 101
    } else {
        false
    };
    proof {
        if r {
            if len == 1 {
                assert(w =~= seq![56u8]);
            } else if len == 2 {
                if s[c as int] == 49 {
                    assert(w =~= seq![49u8, 54u8]);
                } else if s[c as int] == 51 {
                    assert(w =~= seq![51u8, 50u8]);
                } else {
                    assert(w =~= seq![54u8, 52u8]);
                }
            } else if len == 3 {
                assert(w =~= seq![49u8, 50u8, 56u8]);
            } else {
                assert(w =~= seq![115u8, 105u8, 122u8, 101u8]);
            }
        } else {
            if w == seq![56u8] {
                assert(w[0] == 56u8);
            }
            if w == seq![49u8, 54u8] {
                assert(w[0] == 49u8 && w[1] == 54u8);
            }
            if w == seq![51u8, 50u8] {
                assert(w[0] == 51u8 && w[1] == 50u8);
            }
            if w == seq![54u8, 52u8] {
                assert(w[0] == 54u8 && w[1] == 52u8);
            }
            if w == seq![49u8, 50u8, 56u8] {
                assert(w[0] == 49u8 && w[1] == 50u8 && w[2] == 56u8);
            }
            if w == seq![115u8, 105u8, 122u8, 101u8] {
                assert(w[0] == 115u8 && w[1] == 105u8 && w[2] == 122u8 && w[3] == 101u8);
            }
        }
    }
    r
}

/// Whether `s[a..b]` spells `w`.
fn spells(s: &[u8], a: usize, b: usize, w: &[u8]) -> (r: bool)
    requires
        a <= b <= s@.len(),
    ensures
        r == (s@.subrange(a as int, b as int) == w@),
{
    let ghost part = s@.subrange(a as int, b as int);
    if b - a != w.len() {
        return false;
    }
    let n = w.len();
    let mut k: usize = 0;
    while k < n
        invariant
            n == w@.len(),
            b - a == n,
            a <= b <= s@.len(),
            part == s@.subrange(a as int, b as int),
            k <= n,
            forall|q: int| 0 <= q < k ==> part[q] == w@[q],
        decreases n - k,
    {
        if s[a + k] != w[k] {
            proof {
                assert(part[k as int] != w@[k as int]);
            }
            return false;
        }
        k = k + 1;
    }
    proof {
        assert(part =~= w@);
    }
    true
}

/// A parameter as found in the text: the ranges of its name and value.
enum ParamAt {
    Bare { name: (usize, usize) },
    /// An integer value, capped at 8.
    Int { name: (usize, usize), capped: usize },
    Name { name: (usize, usize), value: (usize, usize) },
}

/// Whether a parameter found in the text is the parameter `y`.
spec fn param_is(s: Seq<u8>, x: ParamAt, y: ArgParam) -> bool {
    match (x, y) {
        (ParamAt::Bare { name }, ArgParam::Bare(n)) => name.0 <= name.1 <= s.len() && n
            == s.subrange(name.0 as int, name.1 as int),
        (ParamAt::Int { name, capped }, ArgParam::Valued(n, ArgValue::Int(v))) => name.0 <= name.1
            <= s.len() && n == s.subrange(name.0 as int, name.1 as int) && capped == cap8(v),
        (ParamAt::Name { name, value }, ArgParam::Valued(n, ArgValue::Name(v))) => name.0 <= name.1
            <= s.len() && value.0 <= value.1 <= s.len() && n == s.subrange(
            name.0 as int,
            name.1 as int,
        ) && v == s.subrange(value.0 as int, value.1 as int),
        _ => false,
    }
}

/// `parse_param` on executable values.
fn parse_param_at(s: &[u8], i: usize) -> (r: Option<(ParamAt, usize)>)
    requires
        i < s@.len(),
    ensures
        match (r, parse_param(s@, i as nat)) {
            (None, None) => true,
            (Some((x, next)), Some((y, n2))) => next == n2 && param_is(s@, x, y) && i < next
                <= s@.len(),
            _ => false,
        },
{
    let n = s.len();
    let c = s[i];
    if !((97 <= c && c <= 122) || (65 <= c && c <= 90) || c == 95) {
        return None;
    }
    let j = name_end_at(s, i);
    proof {
        assert(is_name_char(s@[i as int]));
        assert(j > i);
    }
    let k = skip_space_at(s, j);
    if k < n && s[k] == 61 {
        let v = skip_space_at(s, k + 1);
        if v < n && 48 <= s[v] && s[v] <= 57 {
            let radix: usize = if v + 1 < n && s[v] == 48 && s[v + 1] == 120 {
                16
            } else if v + 1 < n && s[v] == 48 && s[v + 1] == 111 {
                8
            } else if v + 1 < n && s[v] == 48 && s[v + 1] == 98 {
                2
            } else {
                10
            };
            let d = if radix == 10 {
                v
            } else {
                v + 2
            };
            let e = digits_end_at(s, d, radix);
            let f = name_end_at(s, e);
            if has_digit_at(s, d, e) && suffix_ok(s, e, f) {
                let capped = capped_value(s, d, e, radix);
                Some((ParamAt::Int { name: (i, j), capped }, f))
            } else {
                None
            }
        } else if v < n && ((97 <= s[v] && s[v] <= 122) || (65 <= s[v] && s[v] <= 90) || s[v]
            == 95) {
            let e = name_end_at(s, v);
            Some((ParamAt::Name { name: (i, j), value: (v, e) }, e))
        } else {
            None
        }
    } else {
        Some((ParamAt::Bare { name: (i, j) }, j))
    }
}

/// `apply_param` on executable values.
fn apply_at(s: &[u8], st: ArgState, x: &ParamAt, Ghost(y): Ghost<ArgParam>) -> (r: ArgState)
    requires
        param_is(s@, *x, y),
        st.count < usize::MAX,
    ensures
        r == apply_param(st, y),
{
    let index = st.count;
    let next = ArgState { count: st.count + 1, ..st };
    if st.error.is_some() {
        return next;
    }
    let option = vec![111u8, 112, 116, 105, 111, 110];
    let buffer_offset = vec![98u8, 117, 102, 102, 101, 114, 95, 111, 102, 102, 115, 101, 116];
    let implicit = vec![105u8, 109, 112, 108, 105, 99, 105, 116];
    let unaligned = vec![117u8, 110, 97, 108, 105, 103, 110, 101, 100];
    let true_word = vec![116u8, 114, 117, 101];
    let false_word = vec![102u8, 97, 108, 115, 101];
    proof {
        assert(true_word@ =~= word_true());
        assert(false_word@ =~= word_false());
        assert(option@ =~= word_option());
        assert(buffer_offset@ =~= word_buffer_offset());
        assert(implicit@ =~= word_implicit());
        assert(unaligned@ =~= word_unaligned());
    }
    match x {
        ParamAt::Bare { .. } => ArgState {
            error: Some(LayoutArgsError::UnknownParameter { index }),
            ..next
        },
        ParamAt::Int { name, capped } => {
            if spells(s, name.0, name.1, option.as_slice()) {
                ArgState { error: Some(LayoutArgsError::OptionForm { index }), ..next }
            } else if spells(s, name.0, name.1, buffer_offset.as_slice()) {
                if *capped <= 7 {
                    ArgState { buffer_offset: Some(BufferOffset::Fixed(*capped)), ..next }
                } else {
                    ArgState { error: Some(LayoutArgsError::BufferOffsetRange { index }), ..next }
                }
            } else {
                ArgState { error: Some(LayoutArgsError::UnknownParameter { index }), ..next }
            }
        },
        ParamAt::Name { name, value } => {
            if spells(s, name.0, name.1, option.as_slice()) {
                if spells(s, value.0, value.1, implicit.as_slice()) {
                    ArgState { option_encoding: OptionEncoding::Implicit, ..next }
                } else if spells(s, value.0, value.1, true_word.as_slice()) || spells(
                    s,
                    value.0,
                    value.1,
                    false_word.as_slice(),
                ) {
                    ArgState { error: Some(LayoutArgsError::OptionForm { index }), ..next }
                } else {
                    ArgState { error: Some(LayoutArgsError::OptionNotImplicit { index }), ..next }
                }
            } else if spells(s, name.0, name.1, buffer_offset.as_slice()) {
                if spells(s, value.0, value.1, unaligned.as_slice()) {
                    ArgState { buffer_offset: Some(BufferOffset::Unaligned), ..next }
                } else {
                    ArgState { error: Some(LayoutArgsError::BufferOffsetForm { index }), ..next }
                }
            } else {
                ArgState { error: Some(LayoutArgsError::UnknownParameter { index }), ..next }
            }
        },
    }
}

/// `finish_args` on executable values.
fn finish_at(st: ArgState) -> (r: Result<LayoutArgs, LayoutArgsError>)
    ensures
        r == finish_args(st),
{
    match st.error {
        Some(e) => Err(e),
        None => match st.buffer_offset {
            Some(b) => Ok(LayoutArgs { buffer_offset: b, option_encoding: st.option_encoding }),
            None => Err(LayoutArgsError::MissingBufferOffset),
        },
    }
}

/// Reads the parameter list of a variable-offset layout, such as
/// `buffer_offset = 1, option = implicit`: `buffer_offset` is required, and
/// `option` defaults to tagged options. A later parameter overrides an
/// earlier one; the first parameter in error decides the error, unless the
/// text is not a parameter list at all.
pub fn parse_layout_args(attr: &[u8]) -> (r: Result<LayoutArgs, LayoutArgsError>)
    ensures
        r == layout_args(attr@),
{
    let n = attr.len();
    let mut st = ArgState {
        option_encoding: OptionEncoding::Tagged,
        buffer_offset: None,
        error: None,
        count: 0,
    };
    let mut i: usize = 0;
    loop
        invariant
            n == attr@.len(),
            i <= n,
            st.count <= i,
            layout_args(attr@) == args_from(attr@, i as nat, st),
        decreases n - i,
    {
        let p = skip_space_at(attr, i);
        if p >= n {
            return finish_at(st);
        }
        let parsed = parse_param_at(attr, p);
        let ghost spec_parsed = parse_param(attr@, p as nat);
        match parsed {
            None => {
                return Err(LayoutArgsError::Syntax);
            },
            Some((x, next)) => {
                let ghost y = match spec_parsed {
                    Some((q, _)) => q,
                    None => ArgParam::Bare(Seq::empty()),
                };
                st = apply_at(attr, st, &x, Ghost(y));
                let t = skip_space_at(attr, next);
                if t >= n {
                    return finish_at(st);
                }
                if attr[t] != 44 {
                    return Err(LayoutArgsError::Syntax);
                }
                i = t + 1;
            },
        }
    }
}

/// Checks the parameter list of a fixed-offset layout, which takes none:
/// anything but spaces is `ParametersNotSupported`.
pub fn check_fixed_layout_args(attr: &[u8]) -> (r: Result<(), LayoutArgsError>)
    ensures
        r is Ok <==> skip_space(attr@, 0) == attr@.len(),
        r matches Err(e) ==> e == LayoutArgsError::ParametersNotSupported,
{
    if skip_space_at(attr, 0) == attr.len() {
        Ok(())
    } else {
        Err(LayoutArgsError::ParametersNotSupported)
    }
}

/// A parameter changes only the setting it names, and a valid one sets it:
/// a parameter not named `option` keeps the option encoding, one not named
/// `buffer_offset` keeps the buffer offset; before any error,
/// `option = implicit` selects implicit options, `buffer_offset = unaligned`
/// an unaligned buffer, and `buffer_offset = n` with `n <= 7` the offset `n`.
pub proof fn lemma_param_effect(st: ArgState, p: ArgParam)
    ensures
        !(p matches ArgParam::Valued(n, _) && n == word_option()) ==> apply_param(
            st,
            p,
        ).option_encoding == st.option_encoding,
        !(p matches ArgParam::Valued(n, _) && n == word_buffer_offset()) ==> apply_param(
            st,
            p,
        ).buffer_offset == st.buffer_offset,
        st.error is None && p == ArgParam::Valued(word_option(), ArgValue::Name(word_implicit()))
            ==> apply_param(st, p).option_encoding == OptionEncoding::Implicit && apply_param(
            st,
            p,
        ).error is None,
        st.error is None && p == ArgParam::Valued(
            word_buffer_offset(),
            ArgValue::Name(word_unaligned()),
        ) ==> apply_param(st, p).buffer_offset == Some(BufferOffset::Unaligned) && apply_param(
            st,
            p,
        ).error is None,
        p matches ArgParam::Valued(n, ArgValue::Int(v)) ==> (st.error is None && n
            == word_buffer_offset() && v <= 7 ==> apply_param(st, p).buffer_offset == Some(
            BufferOffset::Fixed(v as usize),
        ) && apply_param(st, p).error is None),
{
}

/// Once `option = implicit` has been read, it stays: whatever parameters
/// follow (`buffer_offset` ones included), the list gives what it would give
/// after tagged options, with implicit options instead.
pub proof fn lemma_implicit_kept(s: Seq<u8>, i: nat, st: ArgState)
    requires
        st.option_encoding == OptionEncoding::Implicit,
    ensures
        args_from(s, i, st) == (match args_from(
            s,
            i,
            ArgState { option_encoding: OptionEncoding::Tagged, ..st },
        ) {
            Ok(a) => Ok(LayoutArgs { option_encoding: OptionEncoding::Implicit, ..a }),
            Err(e) => Err(e),
        }),
    decreases s.len() - i,
{
    let tagged = ArgState { option_encoding: OptionEncoding::Tagged, ..st };
    let p = skip_space(s, i);
    if p >= s.len() {
        assert(args_from(s, i, st) == finish_args(st));
        assert(args_from(s, i, tagged) == finish_args(tagged));
    } else {
        match parse_param(s, p) {
            Some((param, next)) => {
                let a = apply_param(st, param);
                let b = apply_param(tagged, param);
                lemma_param_effect(st, param);
                lemma_param_effect(tagged, param);
                let t = skip_space(s, next);
                assert(a.option_encoding == OptionEncoding::Implicit);
                if b.option_encoding == OptionEncoding::Implicit {
                    assert(a == b);
                    if t < s.len() && s[t as int] == 44 && t >= i {
                        lemma_implicit_kept(s, t + 1, a);
                    }
                } else {
                    assert(b == ArgState { option_encoding: OptionEncoding::Tagged, ..a });
                    if t < s.len() && s[t as int] == 44 && t >= i {
                        lemma_implicit_kept(s, t + 1, a);
                        assert(args_from(s, i, st) == args_from(s, t + 1, a));
                        assert(args_from(s, i, tagged) == args_from(s, t + 1, b));
                    } else if t >= s.len() {
                        assert(args_from(s, i, st) == finish_args(a));
                        assert(args_from(s, i, tagged) == finish_args(b));
                    }
                }
            },
            None => {},
        }
    }
}

/// The end of a list: its result is the options read, when a buffer offset
/// was given and no parameter was in error; the first error otherwise, and
/// `MissingBufferOffset` when no buffer offset was given.
pub proof fn lemma_finish(st: ArgState)
    ensures
        finish_args(st) matches Ok(a) ==> st.error is None && st.buffer_offset == Some(
            a.buffer_offset,
        ) && a.option_encoding == st.option_encoding,
        st.error matches Some(e) ==> finish_args(st) == Err::<LayoutArgs, LayoutArgsError>(e),
        st.error is None && st.buffer_offset is None ==> finish_args(st) == Err::<
            LayoutArgs,
            LayoutArgsError,
        >(LayoutArgsError::MissingBufferOffset),
        initial_state().option_encoding == OptionEncoding::Tagged && initial_state().buffer_offset
            is None && initial_state().error is None,
{
}

} // verus!
