//! Character-level helpers: lines, trimming, decimal numbers and UTF-8.
use vstd::prelude::*;

verus! {

// ---------------------------------------------------------------------------
// Splitting text into lines
// ---------------------------------------------------------------------------

/// The pieces of `t` between `'\n'` characters, in order. A text with `k`
/// newlines has `k + 1` pieces; the empty text is one empty piece.
pub open spec fn split_lines(t: Seq<char>) -> Seq<Seq<char>>
    decreases t.len(),
{
    if t.len() == 0 {
        seq![Seq::<char>::empty()]
    } else {
        let prev = split_lines(t.drop_last());
        if t.last() == '\n' {
            prev.push(Seq::<char>::empty())
        } else {
            prev.update(prev.len() - 1, prev.last().push(t.last()))
        }
    }
}

/// Every line followed by a `'\n'`, concatenated.
pub open spec fn join_lines(ls: Seq<Seq<char>>) -> Seq<char>
    decreases ls.len(),
{
    if ls.len() == 0 {
        Seq::<char>::empty()
    } else {
        join_lines(ls.drop_last()) + ls.last() + seq!['\n']
    }
}

/// The lines joined with a `'\n'` between neighbours (no trailing newline).
pub open spec fn join_with_newlines(ls: Seq<Seq<char>>) -> Seq<char>
    decreases ls.len(),
{
    if ls.len() == 0 {
        Seq::<char>::empty()
    } else if ls.len() == 1 {
        ls[0]
    } else {
        join_with_newlines(ls.drop_last()) + seq!['\n'] + ls.last()
    }
}

pub open spec fn has_no_newline(s: Seq<char>) -> bool {
    forall|i: int| 0 <= i < s.len() ==> s[i] != '\n'
}

pub proof fn lemma_split_lines_len(t: Seq<char>)
    ensures
        split_lines(t).len() >= 1,
    decreases t.len(),
{
    if t.len() > 0 {
        lemma_split_lines_len(t.drop_last());
    }
}

/// No piece of a split holds a newline.
pub proof fn lemma_split_lines_no_newline(t: Seq<char>)
    ensures
        forall|i: int| 0 <= i < split_lines(t).len() ==> has_no_newline(#[trigger] split_lines(t)[i]),
    decreases t.len(),
{
    if t.len() > 0 {
        lemma_split_lines_no_newline(t.drop_last());
        lemma_split_lines_len(t.drop_last());
        let prev = split_lines(t.drop_last());
        if t.last() != '\n' {
            assert forall|i: int| 0 <= i < split_lines(t).len() implies has_no_newline(
                #[trigger] split_lines(t)[i],
            ) by {
                if i == prev.len() - 1 {
                    assert(has_no_newline(prev[i]));
                }
            }
        }
    }
}

/// Joining the pieces of a split with newlines gives the text back.
pub proof fn lemma_join_split(t: Seq<char>)
    ensures
        join_with_newlines(split_lines(t)) == t,
    decreases t.len(),
{
    if t.len() > 0 {
        lemma_join_split(t.drop_last());
        lemma_split_lines_len(t.drop_last());
        let prev = split_lines(t.drop_last());
        if t.last() == '\n' {
            assert(split_lines(t).drop_last() =~= prev);
            assert(t =~= t.drop_last() + seq!['\n'] + Seq::<char>::empty());
        } else {
            lemma_join_extend_last(prev, t.last());
            assert(t =~= t.drop_last().push(t.last()));
        }
    }
}

proof fn lemma_join_extend_last(ls: Seq<Seq<char>>, c: char)
    requires
        ls.len() >= 1,
    ensures
        join_with_newlines(ls.update(ls.len() - 1, ls.last().push(c))) == join_with_newlines(
            ls,
        ).push(c),
{
    let ls2 = ls.update(ls.len() - 1, ls.last().push(c));
    if ls.len() == 1 {
    } else {
        assert(ls2.drop_last() =~= ls.drop_last());
        assert(join_with_newlines(ls2) =~= join_with_newlines(ls).push(c));
    }
}

/// Splitting lines that were each terminated by a newline gives the lines back,
/// followed by the empty piece after the last newline.
pub proof fn lemma_split_join_lines(ls: Seq<Seq<char>>)
    requires
        forall|i: int| 0 <= i < ls.len() ==> has_no_newline(#[trigger] ls[i]),
    ensures
        split_lines(join_lines(ls)) == ls.push(Seq::<char>::empty()),
    decreases ls.len(),
{
    if ls.len() > 0 {
        let init = ls.drop_last();
        assert forall|i: int| 0 <= i < init.len() implies has_no_newline(#[trigger] init[i]) by {
            assert(init[i] == ls[i]);
        }
        lemma_split_join_lines(init);
        lemma_split_append_line(join_lines(init), ls.last());
        assert(ls.drop_last().push(ls.last()) =~= ls);
        assert(init.push(Seq::<char>::empty()).update(init.len() as int, ls.last()) =~= ls);
    }
}

/// Appending a newline-free line and a newline to a text that ends a line.
proof fn lemma_split_append_line(t: Seq<char>, l: Seq<char>)
    requires
        has_no_newline(l),
    ensures
        split_lines(t + l + seq!['\n']) == split_lines(t).update(
            split_lines(t).len() - 1,
            split_lines(t).last() + l,
        ).push(Seq::<char>::empty()),
    decreases l.len(),
{
    lemma_split_lines_len(t);
    let s = t + l + seq!['\n'];
    assert(s.drop_last() =~= t + l);
    lemma_split_append_chars(t, l);
}

pub proof fn lemma_split_append_chars(t: Seq<char>, l: Seq<char>)
    requires
        has_no_newline(l),
    ensures
        split_lines(t + l) == split_lines(t).update(
            split_lines(t).len() - 1,
            split_lines(t).last() + l,
        ),
    decreases l.len(),
{
    lemma_split_lines_len(t);
    if l.len() == 0 {
        assert(t + l =~= t);
        assert(split_lines(t).last() + l =~= split_lines(t).last());
        assert(split_lines(t).update(split_lines(t).len() - 1, split_lines(t).last())
            =~= split_lines(t));
    } else {
        let l0 = l.drop_last();
        assert(has_no_newline(l0)) by {
            assert forall|i: int| 0 <= i < l0.len() implies l0[i] != '\n' by {
                assert(l0[i] == l[i]);
            }
        }
        lemma_split_append_chars(t, l0);
        assert((t + l).drop_last() =~= t + l0);
        assert((t + l).last() == l.last());
        assert(l.last() == l[l.len() - 1]);
        assert((t + l).last() != '\n');
        let sp = split_lines(t);
        let prev = split_lines(t + l0);
        assert(prev.len() == sp.len());
        assert(prev.last() == sp.last() + l0);
        assert(sp.last() + l0 + seq![l.last()] =~= sp.last() + l);
        assert(prev.last().push(l.last()) =~= sp.last() + l);
        assert(prev.update(prev.len() - 1, prev.last().push(l.last())) =~= sp.update(
            sp.len() - 1,
            sp.last() + l,
        ));
    }
}

// ---------------------------------------------------------------------------
// Whitespace and carriage returns
// ---------------------------------------------------------------------------

/// ASCII whitespace: space, tab, line feed, form feed and carriage return.
pub open spec fn is_space(c: char) -> bool {
    c == ' ' || c == '\t' || c == '\n' || c == '\x0C' || c == '\r'
}

pub open spec fn trim_start(s: Seq<char>) -> Seq<char>
    decreases s.len(),
{
    if s.len() > 0 && is_space(s[0]) {
        trim_start(s.drop_first())
    } else {
        s
    }
}

pub open spec fn trim_end(s: Seq<char>) -> Seq<char>
    decreases s.len(),
{
    if s.len() > 0 && is_space(s.last()) {
        trim_end(s.drop_last())
    } else {
        s
    }
}

/// `s` without its leading and trailing ASCII whitespace.
pub open spec fn trim(s: Seq<char>) -> Seq<char> {
    trim_end(trim_start(s))
}

/// `s` without the carriage returns at its end.
pub open spec fn strip_trailing_cr(s: Seq<char>) -> Seq<char>
    decreases s.len(),
{
    if s.len() > 0 && s.last() == '\r' {
        strip_trailing_cr(s.drop_last())
    } else {
        s
    }
}

/// A text that trimming leaves as it is.
pub open spec fn is_trimmed(s: Seq<char>) -> bool {
    s.len() == 0 || (!is_space(s[0]) && !is_space(s.last()))
}

pub proof fn lemma_trim_trimmed(s: Seq<char>)
    requires
        is_trimmed(s),
    ensures
        trim(s) == s,
{
}

fn is_space_char(c: char) -> (b: bool)
    ensures
        b == is_space(c),
{
    c == ' ' || c == '\t' || c == '\n' || c == '\x0C' || c == '\r'
}

/// The characters of `s[from..to]`.
pub fn sub_chars(s: &Vec<char>, from: usize, to: usize) -> (r: Vec<char>)
    requires
        from <= to <= s.len(),
    ensures
        r@ == s@.subrange(from as int, to as int),
{
    let mut r: Vec<char> = Vec::new();
    let mut i = from;
    while i < to
        invariant
            from <= i <= to <= s.len(),
            r@ == s@.subrange(from as int, i as int),
        decreases to - i,
    {
        r.push(s[i]);
        i += 1;
        assert(r@ =~= s@.subrange(from as int, i as int));
    }
    r
}

/// `s[from..]` with its leading and trailing ASCII whitespace removed.
pub fn trim_chars_from(s: &Vec<char>, from: usize) -> (r: Vec<char>)
    requires
        from <= s.len(),
    ensures
        r@ == trim(s@.skip(from as int)),
{
    let mut lo = from;
    while lo < s.len() && is_space_char(s[lo])
        invariant
            from <= lo <= s.len(),
            trim_start(s@.skip(from as int)) == trim_start(s@.skip(lo as int)),
        decreases s.len() - lo,
    {
        assert(s@.skip(lo as int).drop_first() =~= s@.skip(lo + 1));
        lo += 1;
    }
    let ghost ts = s@.skip(lo as int);
    assert(trim_start(ts) == ts);
    let mut hi = s.len();
    while hi > lo && is_space_char(s[hi - 1])
        invariant
            lo <= hi <= s.len(),
            trim_end(ts) == trim_end(s@.subrange(lo as int, hi as int)),
        decreases hi,
    {
        assert(s@.subrange(lo as int, hi as int).drop_last() =~= s@.subrange(
            lo as int,
            hi - 1,
        ));
        hi -= 1;
    }
    assert(ts =~= s@.subrange(lo as int, s.len() as int));
    sub_chars(s, lo, hi)
}


/// A newline-free text is a single line.
pub proof fn lemma_split_single_line(v: Seq<char>)
    requires
        has_no_newline(v),
    ensures
        split_lines(v) == seq![v],
{
    let e = Seq::<char>::empty();
    lemma_split_append_chars(e, v);
    assert(e + v =~= v);
    assert(split_lines(e) == seq![e]);
    assert(e + v =~= v);
    assert(seq![e].update(0, e + v) =~= seq![v]);
}

/// Adding a newline and a newline-free line adds that line.
pub proof fn lemma_split_add_line(a: Seq<char>, v: Seq<char>)
    requires
        has_no_newline(v),
    ensures
        split_lines(a + seq!['\n'] + v) == split_lines(a).push(v),
{
    let an = a + seq!['\n'];
    assert(an.drop_last() =~= a);
    assert(split_lines(an) == split_lines(a).push(Seq::<char>::empty()));
    lemma_split_append_chars(an, v);
    assert(Seq::<char>::empty() + v =~= v);
    assert(split_lines(a).push(Seq::<char>::empty()).update(
        split_lines(a).len() as int,
        Seq::<char>::empty() + v,
    ) =~= split_lines(a).push(v));
}

proof fn lemma_trim_start_suffix(s: Seq<char>)
    ensures
        trim_start(s).len() <= s.len(),
        trim_start(s).len() == 0 || !is_space(trim_start(s)[0]),
        forall|i: int|
            0 <= i < trim_start(s).len() ==> #[trigger] trim_start(s)[i] == s[i + (s.len()
                - trim_start(s).len())],
    decreases s.len(),
{
    if s.len() > 0 && is_space(s[0]) {
        lemma_trim_start_suffix(s.drop_first());
    }
}

proof fn lemma_trim_end_prefix(s: Seq<char>)
    ensures
        trim_end(s).len() <= s.len(),
        trim_end(s).len() == 0 || !is_space(trim_end(s).last()),
        forall|i: int| 0 <= i < trim_end(s).len() ==> #[trigger] trim_end(s)[i] == s[i],
    decreases s.len(),
{
    if s.len() > 0 && is_space(s.last()) {
        lemma_trim_end_prefix(s.drop_last());
    }
}

/// Trimming leaves no whitespace at the ends and adds no newline.
pub proof fn lemma_trim_result(s: Seq<char>)
    ensures
        is_trimmed(trim(s)),
        has_no_newline(s) ==> has_no_newline(trim(s)),
{
    let u = trim_start(s);
    lemma_trim_start_suffix(s);
    lemma_trim_end_prefix(u);
    let v = trim_end(u);
    if v.len() > 0 {
        assert(v[0] == u[0]);
    }
    if has_no_newline(s) {
        assert forall|i: int| 0 <= i < v.len() implies v[i] != '\n' by {
            assert(v[i] == u[i]);
            assert(u[i] == s[i + (s.len() - u.len())]);
        }
    }
}

/// Dropping the carriage returns at the end keeps a prefix that does not end
/// with one.
pub proof fn lemma_strip_trailing_cr(s: Seq<char>)
    ensures
        strip_trailing_cr(s).len() <= s.len(),
        strip_trailing_cr(s).len() == 0 || strip_trailing_cr(s).last() != '\r',
        forall|i: int|
            0 <= i < strip_trailing_cr(s).len() ==> #[trigger] strip_trailing_cr(s)[i] == s[i],
    decreases s.len(),
{
    if s.len() > 0 && s.last() == '\r' {
        lemma_strip_trailing_cr(s.drop_last());
    }
}

// ---------------------------------------------------------------------------
// Decimal numbers
// ---------------------------------------------------------------------------

pub open spec fn is_digit(c: char) -> bool {
    '0' <= c <= '9'
}

pub open spec fn digit_char(d: nat) -> char {
    (d + 48) as char
}

pub open spec fn digit_value(c: char) -> nat {
    ((c as int) - 48) as nat
}

/// The decimal digits of `n`, most significant first, without leading zeros.
pub open spec fn decimal(n: nat) -> Seq<char>
    decreases n,
{
    if n < 10 {
        seq![digit_char(n)]
    } else {
        decimal(n / 10).push(digit_char(n % 10))
    }
}

/// The number that a sequence of decimal digits denotes.
pub open spec fn decimal_value(s: Seq<char>) -> nat
    decreases s.len(),
{
    if s.len() == 0 {
        0
    } else {
        decimal_value(s.drop_last()) * 10 + digit_value(s.last())
    }
}

pub open spec fn all_digits(s: Seq<char>) -> bool {
    forall|i: int| 0 <= i < s.len() ==> is_digit(#[trigger] s[i])
}

/// The `u64` that `s` writes in decimal: `None` unless `s` is a non-empty run of
/// ASCII digits whose value fits in a `u64`.
pub open spec fn parse_u64(s: Seq<char>) -> Option<u64> {
    if s.len() > 0 && all_digits(s) && decimal_value(s) <= u64::MAX {
        Some(decimal_value(s) as u64)
    } else {
        None
    }
}

proof fn lemma_digit_char(d: nat)
    requires
        d < 10,
    ensures
        is_digit(digit_char(d)),
        digit_value(digit_char(d)) == d,
{
    assert(digit_char(d) as int == d + 48);
}

/// Reading back the decimal digits of `n` gives `n`.
pub proof fn lemma_decimal_roundtrip(n: nat)
    ensures
        decimal(n).len() > 0,
        all_digits(decimal(n)),
        decimal_value(decimal(n)) == n,
        is_trimmed(decimal(n)),
    decreases n,
{
    if n < 10 {
        lemma_digit_char(n);
        assert(decimal(n).drop_last() =~= Seq::<char>::empty());
        assert(decimal_value(Seq::<char>::empty()) == 0);
        assert(decimal_value(decimal(n)) == n);
    } else {
        lemma_decimal_roundtrip(n / 10);
        lemma_digit_char(n % 10);
        let s = decimal(n);
        assert(s.drop_last() =~= decimal(n / 10));
        assert(s.last() == digit_char(n % 10));
        assert(decimal_value(s) == decimal_value(decimal(n / 10)) * 10 + digit_value(
            digit_char(n % 10),
        ));
        assert(n == (n / 10) * 10 + n % 10);
        assert(decimal_value(decimal(n)) == n);
        assert forall|i: int| 0 <= i < s.len() implies is_digit(#[trigger] s[i]) by {
            if i < s.len() - 1 {
                assert(s[i] == decimal(n / 10)[i]);
            }
        }
    }
    let s = decimal(n);
    assert(is_digit(s[0]));
    assert(is_digit(s.last()));
}

/// Law: reading the decimal digits of a `u64` gives it back.
pub proof fn lemma_parse_decimal(n: u64)
    ensures
        parse_u64(decimal(n as nat)) == Some(n),
        trim(decimal(n as nat)) == decimal(n as nat),
{
    lemma_decimal_roundtrip(n as nat);
}

proof fn lemma_decimal_value_monotone(s: Seq<char>, j: int)
    requires
        0 <= j <= s.len(),
    ensures
        decimal_value(s.take(j)) <= decimal_value(s),
    decreases s.len() - j,
{
    if j < s.len() {
        lemma_decimal_value_monotone(s, j + 1);
        assert(s.take(j + 1).drop_last() =~= s.take(j));
    } else {
        assert(s.take(j) =~= s);
    }
}

fn digit_of(d: u64) -> (c: char)
    requires
        d < 10,
    ensures
        c == digit_char(d as nat),
{
    ((d as u8) + 48u8) as char
}

/// Appends the decimal digits of `n` to `out`.
pub fn push_decimal(out: &mut Vec<char>, n: u64)
    ensures
        final(out)@ == old(out)@ + decimal(n as nat),
    decreases n,
{
    if n < 10 {
        out.push(digit_of(n));
        assert(old(out)@.push(digit_char(n as nat)) =~= old(out)@ + decimal(n as nat));
    } else {
        push_decimal(out, n / 10);
        out.push(digit_of(n % 10));
        assert(old(out)@ + decimal((n / 10) as nat) + seq![digit_char((n % 10) as nat)]
            =~= old(out)@ + decimal(n as nat));
    }
}

/// The `u64` written in decimal by `s`, as `parse_u64` defines it.
pub fn parse_u64_chars(s: &Vec<char>) -> (r: Option<u64>)
    ensures
        r == parse_u64(s@),
{
    if s.len() == 0 {
        return None;
    }
    let mut v: u64 = 0;
    let mut i: usize = 0;
    while i < s.len()
        invariant
            i <= s.len(),
            all_digits(s@.take(i as int)),
            v == decimal_value(s@.take(i as int)),
        decreases s.len() - i,
    {
        let c = s[i];
        if !('0' <= c && c <= '9') {
            assert(!is_digit(s@[i as int]));
            return None;
        }
        let d = (c as u32 - 48) as u64;
        assert(s@.take(i + 1).drop_last() =~= s@.take(i as int));
        assert(all_digits(s@.take(i + 1))) by {
            assert forall|k: int| 0 <= k < i + 1 implies is_digit(#[trigger] s@.take(i + 1)[k]) by {
                if k < i {
                    assert(s@.take(i + 1)[k] == s@.take(i as int)[k]);
                }
            }
        }
        if v > (u64::MAX - d) / 10 {
            proof {
                assert(v * 10 + d > u64::MAX) by (nonlinear_arith)
                    requires
                        v > (u64::MAX - d) / 10,
                        d < 10,
                ;
                lemma_decimal_value_monotone(s@, i + 1);
            }
            return None;
        }
        assert(v * 10 + d <= u64::MAX) by (nonlinear_arith)
            requires
                v <= (u64::MAX - d) / 10,
                d < 10,
        ;
        v = v * 10 + d;
        i += 1;
    }
    assert(s@.take(s.len() as int) =~= s@);
    Some(v)
}

// ---------------------------------------------------------------------------
// Strings, characters and UTF-8
// ---------------------------------------------------------------------------

/// Calls `String::push`, which appends one character.
#[verifier::external_body]
fn push_char(s: &mut String, c: char)
    ensures
        final(s)@ == old(s)@.push(c),
{
    s.push(c);
}

/// The characters of `s`, in order.
pub fn chars_of(s: &str) -> (v: Vec<char>)
    ensures
        v@ == s@,
{
    let mut v: Vec<char> = Vec::new();
    for c in it: s.chars()
        invariant
            v@ == it.seq().take(it.index()),
    {
        v.push(c);
    }
    v
}

/// The string made of the characters of `v`.
pub fn string_of(v: &Vec<char>) -> (s: String)
    ensures
        s@ == v@,
{
    let mut s = String::new();
    let mut i: usize = 0;
    while i < v.len()
        invariant
            i <= v.len(),
            s@ == v@.take(i as int),
        decreases v.len() - i,
    {
        push_char(&mut s, v[i]);
        assert(v@.take(i + 1) == v@.take(i as int).push(v@[i as int]));
        i += 1;
    }
    assert(v@.take(v.len() as int) == v@);
    s
}

/// Appends the characters of `s` to `out`.
pub fn push_str_chars(out: &mut Vec<char>, s: &str)
    ensures
        final(out)@ == old(out)@ + s@,
{
    let cs = chars_of(s);
    let mut i: usize = 0;
    while i < cs.len()
        invariant
            i <= cs.len(),
            cs@ == s@,
            out@ == old(out)@ + cs@.take(i as int),
        decreases cs.len() - i,
    {
        out.push(cs[i]);
        i += 1;
        assert(out@ =~= old(out)@ + cs@.take(i as int));
    }
    assert(cs@.take(cs.len() as int) =~= cs@);
}

/// A copy of `v`.
pub fn copy_bytes(v: &Vec<u8>) -> (r: Vec<u8>)
    ensures
        r@ == v@,
{
    let mut r: Vec<u8> = Vec::new();
    let mut i: usize = 0;
    while i < v.len()
        invariant
            i <= v.len(),
            r@ == v@.take(i as int),
        decreases v.len() - i,
    {
        r.push(v[i]);
        i += 1;
        assert(r@ =~= v@.take(i as int));
    }
    assert(v@.take(v.len() as int) =~= v@);
    r
}

/// The UTF-8 encoding of `s`.
pub fn utf8_bytes(s: &String) -> (b: Vec<u8>)
    ensures
        b@ == vstd::utf8::encode_utf8(s@),
{
    s.as_str().as_bytes_vec()
}

/// Calls `std::str::from_utf8`: it succeeds exactly on valid UTF-8, and then the
/// text holds the characters that the bytes encode.
#[verifier::external_body]
pub(crate) fn utf8_decode(bytes: &[u8]) -> (r: Option<String>)
    ensures
        r is Some <==> vstd::utf8::valid_utf8(bytes@),
        r matches Some(s) ==> s@ == vstd::utf8::decode_utf8(bytes@),
{
    match std::str::from_utf8(bytes) {
        Ok(s) => Some(s.to_string()),
        Err(_) => None,
    }
}

/// What `String::from_utf8_lossy` makes of `bytes`: each invalid sequence becomes
/// a replacement character.
pub uninterp spec fn lossy_utf8(bytes: Seq<u8>) -> Seq<char>;

/// Calls `String::from_utf8_lossy`. On valid UTF-8 it returns the characters the
/// bytes encode; what it returns for other input is only named.
#[verifier::external_body]
pub(crate) fn utf8_decode_lossy(bytes: &[u8]) -> (r: String)
    ensures
        r@ == lossy_utf8(bytes@),
        vstd::utf8::valid_utf8(bytes@) ==> r@ == vstd::utf8::decode_utf8(bytes@),
{
    String::from_utf8_lossy(bytes).into_owned()
}

} // verus!
