//! Numbers and strings as text.

use vstd::prelude::*;
use vstd::string::*;

verus! {

/// `std::string::String::push`: the character is added at the end.
pub assume_specification[ String::push ](s: &mut String, c: char)
    ensures
        final(s)@ == old(s)@.push(c),
;

/// The digit of `d` in a base up to sixteen.
pub open spec fn digit_char(d: nat) -> char {
    if d < 10 {
        (48 + d) as char
    } else {
        (87 + d) as char
    }
}

/// The number in base ten, without leading zeros.
pub open spec fn decimal(n: nat) -> Seq<char>
    decreases n,
{
    if n < 10 {
        seq![digit_char(n)]
    } else {
        decimal(n / 10).push(digit_char(n % 10))
    }
}

/// A signed number in base ten.
pub open spec fn signed_decimal(v: int) -> Seq<char> {
    if v >= 0 {
        decimal(v as nat)
    } else {
        seq!['-'] + decimal((-v) as nat)
    }
}

/// The `n` low digits of a number in the given base, zeros in front.
pub open spec fn fixed_digits(v: nat, base: nat, n: nat) -> Seq<char>
    decreases n,
{
    if n == 0 {
        Seq::empty()
    } else {
        fixed_digits(v / base, base, (n - 1) as nat).push(digit_char(v % base))
    }
}

/// `n` blanks.
pub open spec fn blanks(n: nat) -> Seq<char> {
    Seq::new(n, |i: int| ' ')
}

/// Text set flush right in a field of at least `width`.
pub open spec fn flush_right(t: Seq<char>, width: nat) -> Seq<char> {
    if t.len() >= width {
        t
    } else {
        blanks((width - t.len()) as nat) + t
    }
}

/// `0x` and sixteen hexadecimal digits.
pub open spec fn hex_u64(v: u64) -> Seq<char> {
    "0x"@ + fixed_digits(v as nat, 16, 16)
}

fn digit(d: u64) -> (c: char)
    requires
        d < 16,
    ensures
        c == digit_char(d as nat),
{
    match d {
        0 => '0',
        1 => '1',
        2 => '2',
        3 => '3',
        4 => '4',
        5 => '5',
        6 => '6',
        7 => '7',
        8 => '8',
        9 => '9',
        10 => 'a',
        11 => 'b',
        12 => 'c',
        13 => 'd',
        14 => 'e',
        _ => 'f',
    }
}

pub(crate) fn push_decimal(out: &mut String, v: u64)
    ensures
        final(out)@ == old(out)@ + decimal(v as nat),
    decreases v,
{
    let ghost start = out@;
    if v >= 10 {
        push_decimal(out, v / 10);
    }
    out.push(digit(v % 10));
    assert(out@ =~= start + decimal(v as nat));
}

pub(crate) fn push_signed(out: &mut String, v: i64)
    ensures
        final(out)@ == old(out)@ + signed_decimal(v as int),
{
    let ghost start = out@;
    if v >= 0 {
        push_decimal(out, v as u64);
    } else {
        out.push('-');
        push_decimal(out, (-(v as i128)) as u64);
    }
    assert(out@ =~= start + signed_decimal(v as int));
}

pub(crate) fn push_fixed(out: &mut String, v: u64, base: u64, n: usize)
    requires
        2 <= base <= 16,
    ensures
        final(out)@ == old(out)@ + fixed_digits(v as nat, base as nat, n as nat),
    decreases n,
{
    let ghost start = out@;
    if n > 0 {
        push_fixed(out, v / base, base, n - 1);
        out.push(digit(v % base));
    }
    assert(out@ =~= start + fixed_digits(v as nat, base as nat, n as nat));
}

pub(crate) fn push_text(out: &mut String, t: &str)
    ensures
        final(out)@ == old(out)@ + t@,
{
    out.append(t);
}

pub(crate) fn push_hex_u64(out: &mut String, v: u64)
    ensures
        final(out)@ == old(out)@ + hex_u64(v),
{
    let ghost start = out@;
    push_text(out, "0x");
    push_fixed(out, v, 16, 16);
    assert(out@ =~= start + hex_u64(v));
}

/// Append `t` flush right in a field of `width`.
pub(crate) fn push_flush_right(out: &mut String, t: &str, width: usize)
    ensures
        final(out)@ == old(out)@ + flush_right(t@, width as nat),
{
    let ghost start = out@;
    let n: usize = t.unicode_len();
    let mut i: usize = n;
    assert(blanks(0) =~= Seq::<char>::empty());
    assert(start + blanks(0) =~= start);
    while i < width
        invariant
            n <= i,
            n <= width ==> i <= width,
            n > width ==> i == n,
            out@ == start + blanks((i - n) as nat),
        decreases width - i,
    {
        out.push(' ');
        i = i + 1;
        assert(out@ =~= start + blanks((i - n) as nat));
    }
    push_text(out, t);
    assert(out@ =~= start + flush_right(t@, width as nat));
}

/// The characters of a string.
pub(crate) fn chars_of(s: &str) -> (v: Vec<char>)
    ensures
        v@ == s@,
{
    let mut v: Vec<char> = Vec::new();
    let n: usize = s.unicode_len();
    let mut i: usize = 0;
    while i < n
        invariant
            i <= n,
            n == s@.len(),
            v@ == s@.take(i as int),
        decreases n - i,
    {
        v.push(s.get_char(i));
        i = i + 1;
        assert(v@ =~= s@.take(i as int));
    }
    assert(v@ =~= s@);
    v
}

/// A string of the given characters.
pub(crate) fn string_of(chars: &[char]) -> (s: String)
    ensures
        s@ == chars@,
{
    let mut s = String::new();
    let mut i: usize = 0;
    while i < chars.len()
        invariant
            i <= chars@.len(),
            s@ == chars@.take(i as int),
        decreases chars@.len() - i,
    {
        s.push(chars[i]);
        i = i + 1;
        assert(s@ =~= chars@.take(i as int));
    }
    assert(s@ =~= chars@);
    s
}

/// The text as the debug format of strings prints it: quoted, with escapes.
pub uninterp spec fn debug_of(t: Seq<char>) -> Seq<char>;

/// The `{:?}` format of `str`: what is printed depends on the text alone. Which characters
/// are escaped, and how, is left unsaid.
#[verifier::external_body]
pub(crate) fn debug_text(t: &str) -> (r: String)
    ensures
        r@ == debug_of(t@),
{
    format!("{:?}", t)
}

/// A character that counts as white space.
pub open spec fn is_white(c: char) -> bool {
    let k = c as int;
    ||| 9 <= k <= 13
    ||| k == 0x20
    ||| k == 0x85
    ||| k == 0xa0
    ||| k == 0x1680
    ||| 0x2000 <= k <= 0x200a
    ||| k == 0x2028
    ||| k == 0x2029
    ||| k == 0x202f
    ||| k == 0x205f
    ||| k == 0x3000
}

pub(crate) fn char_is_white(c: char) -> (b: bool)
    ensures
        b == is_white(c),
{
    let k: u32 = c as u32;
    (9 <= k && k <= 13) || k == 0x20 || k == 0x85 || k == 0xa0 || k == 0x1680 || (0x2000 <= k && k
        <= 0x200a) || k == 0x2028 || k == 0x2029 || k == 0x202f || k == 0x205f || k == 0x3000
}

/// The text without white space at its end.
pub open spec fn trimmed_end(t: Seq<char>) -> Seq<char>
    decreases t.len(),
{
    if t.len() > 0 && is_white(t.last()) {
        trimmed_end(t.drop_last())
    } else {
        t
    }
}

/// The text without white space at its start.
pub open spec fn trimmed_start(t: Seq<char>) -> Seq<char>
    decreases t.len(),
{
    if t.len() > 0 && is_white(t[0]) {
        trimmed_start(t.skip(1))
    } else {
        t
    }
}

/// The text without white space at either end.
pub open spec fn trimmed(t: Seq<char>) -> Seq<char> {
    trimmed_end(trimmed_start(t))
}

pub(crate) fn trim_end_chars(v: &mut Vec<char>)
    ensures
        final(v)@ == trimmed_end(old(v)@),
{
    let ghost start = v@;
    while v.len() > 0 && char_is_white(v[v.len() - 1])
        invariant
            trimmed_end(start) == trimmed_end(v@),
        decreases v@.len(),
    {
        let ghost before = v@;
        v.pop();
        assert(v@ =~= before.drop_last());
    }
}

pub(crate) fn trim_chars(v: &mut Vec<char>)
    ensures
        final(v)@ == trimmed(old(v)@),
{
    let ghost start = v@;
    while v.len() > 0 && char_is_white(v[0])
        invariant
            trimmed_start(start) == trimmed_start(v@),
        decreases v@.len(),
    {
        let ghost before = v@;
        v.remove(0);
        assert(v@ =~= before.skip(1));
    }
    trim_end_chars(v);
}

/// `a` comes before `b`, or they are the same, by character codes.
pub open spec fn text_le(a: Seq<char>, b: Seq<char>) -> bool
    decreases a.len(),
{
    if a.len() == 0 {
        true
    } else if b.len() == 0 {
        false
    } else if a[0] != b[0] {
        a[0] < b[0]
    } else {
        text_le(a.skip(1), b.skip(1))
    }
}

/// Of any two texts one comes first.
pub proof fn lemma_text_le_total(a: Seq<char>, b: Seq<char>)
    ensures
        text_le(a, b) || text_le(b, a),
    decreases a.len(),
{
    if a.len() > 0 && b.len() > 0 && a[0] == b[0] {
        lemma_text_le_total(a.skip(1), b.skip(1));
    }
}

/// The order chains.
pub proof fn lemma_text_le_transitive(a: Seq<char>, b: Seq<char>, c: Seq<char>)
    requires
        text_le(a, b),
        text_le(b, c),
    ensures
        text_le(a, c),
    decreases a.len(),
{
    if a.len() > 0 && b.len() > 0 && c.len() > 0 && a[0] == b[0] && b[0] == c[0] {
        lemma_text_le_transitive(a.skip(1), b.skip(1), c.skip(1));
    }
}

/// Whether `a` comes no later than `b`.
pub(crate) fn chars_le(a: &[char], b: &[char]) -> (r: bool)
    ensures
        r == text_le(a@, b@),
{
    let mut i: usize = 0;
    assert(a@.skip(0) =~= a@);
    assert(b@.skip(0) =~= b@);
    while i < a.len() && i < b.len()
        invariant
            i <= a@.len(),
            i <= b@.len(),
            text_le(a@, b@) == text_le(a@.skip(i as int), b@.skip(i as int)),
        decreases a@.len() - i,
    {
        if a[i] != b[i] {
            return a[i] < b[i];
        }
        assert(a@.skip(i as int).skip(1) =~= a@.skip(i + 1));
        assert(b@.skip(i as int).skip(1) =~= b@.skip(i + 1));
        i = i + 1;
    }
    i == a.len()
}

/// The value of a hexadecimal digit, of either case.
pub open spec fn hex_value(c: u8) -> Option<u8> {
    if 48 <= c <= 57 {
        Some((c - 48) as u8)
    } else if 97 <= c <= 102 {
        Some((c - 87) as u8)
    } else if 65 <= c <= 70 {
        Some((c - 55) as u8)
    } else {
        None
    }
}

pub(crate) fn hex_digit_value(c: u8) -> (r: Option<u8>)
    ensures
        r == hex_value(c),
{
    if 48 <= c && c <= 57 {
        Some(c - 48)
    } else if 97 <= c && c <= 102 {
        Some(c - 87)
    } else if 65 <= c && c <= 70 {
        Some(c - 55)
    } else {
        None
    }
}
/// A text cut at its line feeds.
pub open spec fn pieces(t: Seq<char>) -> Seq<Seq<char>>
    decreases t.len(),
{
    if t.len() == 0 {
        seq![Seq::<char>::empty()]
    } else {
        let p = pieces(t.drop_last());
        if t.last() == '\n' {
            p.push(Seq::empty())
        } else {
            p.update(p.len() - 1, p.last().push(t.last()))
        }
    }
}

/// A piece that a line feed ends, without the carriage return before it.
pub open spec fn without_return(p: Seq<char>) -> Seq<char> {
    if p.len() > 0 && p.last() == '\r' {
        p.drop_last()
    } else {
        p
    }
}

/// The lines of a text: a line ends with a line feed, or a carriage return and a line feed;
/// the last needs neither.
pub open spec fn lines(t: Seq<char>) -> Seq<Seq<char>> {
    let p = pieces(t);
    let ended = Seq::new((p.len() - 1) as nat, |i: int| without_return(p[i]));
    if p.last().len() == 0 {
        ended
    } else {
        ended.push(p.last())
    }
}

pub proof fn lemma_pieces_nonempty(t: Seq<char>)
    ensures
        pieces(t).len() > 0,
    decreases t.len(),
{
    if t.len() > 0 {
        lemma_pieces_nonempty(t.drop_last());
    }
}

/// The texts that several vectors of characters hold.
pub open spec fn char_texts(v: Seq<Vec<char>>) -> Seq<Seq<char>> {
    Seq::new(v.len(), |i: int| v[i]@)
}

pub(crate) fn text_lines(s: &str) -> (r: Vec<Vec<char>>)
    ensures
        char_texts(r@) == lines(s@),
{
    let v = chars_of(s);
    let mut out: Vec<Vec<char>> = Vec::new();
    let mut run: Vec<char> = Vec::new();
    let mut i: usize = 0;
    while i < v.len()
        invariant
            i <= v@.len(),
            v@ == s@,
            pieces(v@.take(i as int)).len() == out@.len() + 1,
            pieces(v@.take(i as int)).last() == run@,
            forall|k: int|
                0 <= k < out@.len() ==> (#[trigger] out@[k])@ == without_return(
                    pieces(v@.take(i as int))[k],
                ),
        decreases v@.len() - i,
    {
        let c: char = v[i];
        let ghost before = pieces(v@.take(i as int));
        proof {
            assert(v@.take(i + 1).drop_last() =~= v@.take(i as int));
            assert(v@.take(i + 1).last() == c);
        }
        if c == '\n' {
            let ghost whole = run@;
            if run.len() > 0 && run[run.len() - 1] == '\r' {
                run.pop();
                assert(run@ == whole.drop_last());
            }
            assert(run@ == without_return(whole));
            out.push(run);
            run = Vec::new();
        } else {
            run.push(c);
        }
        i = i + 1;
    }
    assert(v@.take(i as int) =~= v@);
    if run.len() > 0 {
        out.push(run);
    }
    assert(char_texts(out@) =~= lines(s@));
    out
}
/// The texts of several strings.
pub open spec fn texts(v: Seq<String>) -> Seq<Seq<char>> {
    Seq::new(v.len(), |i: int| v[i]@)
}
/// A text stands somewhere in another.
pub open spec fn contains_text(t: Seq<char>, p: Seq<char>) -> bool {
    exists|i: int| 0 <= i && i + p.len() <= t.len() && #[trigger] t.subrange(i, i + p.len()) == p
}

pub(crate) fn chars_contain(t: &[char], p: &[char]) -> (r: bool)
    ensures
        r == contains_text(t@, p@),
{
    if p.len() > t.len() {
        return false;
    }
    let last: usize = t.len() - p.len();
    let mut i: usize = 0;
    loop
        invariant
            i <= last,
            last + p@.len() == t@.len(),
            t@.len() == t.len(),
            forall|k: int| 0 <= k < i ==> #[trigger] t@.subrange(k, k + p@.len()) != p@,
        decreases last - i,
    {
        let mut j: usize = 0;
        while j < p.len() && t[i + j] == p[j]
            invariant
                j <= p@.len(),
                i <= last,
                last + p@.len() == t@.len(),
                t@.len() == t.len(),
                forall|k: int| 0 <= k < j ==> t@[i + k] == p@[k],
            decreases p@.len() - j,
        {
            j = j + 1;
        }
        if j == p.len() {
            assert(t@.subrange(i as int, i + p@.len()) =~= p@);
            return true;
        }
        assert(t@.subrange(i as int, i + p@.len())[j as int] == t@[i + j]);
        if i == last {
            assert(!contains_text(t@, p@));
            return false;
        }
        i = i + 1;
    }
}

/// What `to_lowercase` makes of a text.
pub uninterp spec fn lower_of(t: Seq<char>) -> Seq<char>;

/// `str::to_lowercase`: what comes out depends on the text alone. How each character is
/// mapped is left unsaid.
#[verifier::external_body]
pub(crate) fn lower_text(t: &str) -> (r: String)
    ensures
        r@ == lower_of(t@),
{
    t.to_lowercase()
}

/// Of two texts the one with the lower character where they first differ comes first; a part of
/// another from its start on comes before it.
pub proof fn lemma_first_difference_decides(a: Seq<char>, b: Seq<char>, k: int)
    requires
        0 <= k <= a.len(),
        k <= b.len(),
        a.take(k) == b.take(k),
    ensures
        k < a.len() && k < b.len() && a[k] != b[k] ==> (text_le(a, b) <==> a[k] < b[k]),
        k == a.len() && k < b.len() ==> text_le(a, b),
        k == b.len() && k < a.len() ==> !text_le(a, b),
    decreases a.len(),
{
    if k > 0 {
        assert(a[0] == a.take(k)[0] && b[0] == b.take(k)[0]);
        assert(a.skip(1).take(k - 1) =~= a.take(k).skip(1));
        assert(b.skip(1).take(k - 1) =~= b.take(k).skip(1));
        lemma_first_difference_decides(a.skip(1), b.skip(1), k - 1);
    }
}

/// Trimming takes white space off both ends, all of it, and nothing else.
pub proof fn lemma_trimmed(t: Seq<char>) -> (r: (int, int))
    ensures
        ({
            let (i, j) = r;
            &&& 0 <= i <= j <= t.len()
            &&& trimmed(t) == t.subrange(i, j)
            &&& forall|k: int| 0 <= k < i || j <= k < t.len() ==> is_white(#[trigger] t[k])
            &&& i < j ==> !is_white(t[i]) && !is_white(t[j - 1])
        }),
{
    let i = lemma_trimmed_start(t);
    let s = trimmed_start(t);
    let n = lemma_trimmed_end(s);
    assert(s.take(n) =~= t.subrange(i, i + n));
    assert forall|k: int| 0 <= k < i || i + n <= k < t.len() implies is_white(#[trigger] t[k]) by {
        if k >= i {
            assert(s[k - i] == t[k]);
        }
    }
    (i, i + n)
}

proof fn lemma_trimmed_start(t: Seq<char>) -> (i: int)
    ensures
        0 <= i <= t.len(),
        trimmed_start(t) == t.skip(i),
        forall|k: int| 0 <= k < i ==> is_white(#[trigger] t[k]),
        i < t.len() ==> !is_white(t[i]),
    decreases t.len(),
{
    if t.len() > 0 && is_white(t[0]) {
        let s = t.skip(1);
        let i = lemma_trimmed_start(s);
        assert(s.skip(i) =~= t.skip(i + 1));
        assert forall|k: int| 0 <= k < i + 1 implies is_white(#[trigger] t[k]) by {
            if k > 0 {
                assert(s[k - 1] == t[k]);
            }
        }
        i + 1
    } else {
        assert(t.skip(0) =~= t);
        0
    }
}

proof fn lemma_trimmed_end(t: Seq<char>) -> (j: int)
    ensures
        0 <= j <= t.len(),
        trimmed_end(t) == t.take(j),
        forall|k: int| j <= k < t.len() ==> is_white(#[trigger] t[k]),
        j > 0 ==> !is_white(t[j - 1]),
    decreases t.len(),
{
    if t.len() > 0 && is_white(t.last()) {
        let s = t.drop_last();
        let j = lemma_trimmed_end(s);
        assert(s.take(j) =~= t.take(j));
        assert forall|k: int| j <= k < t.len() implies is_white(#[trigger] t[k]) by {
            if k < s.len() {
                assert(s[k] == t[k]);
            }
        }
        j
    } else {
        assert(t.take(t.len() as int) =~= t);
        t.len() as int
    }
}

/// A line ends at its line feed, whether or not a carriage return stands before that.
pub proof fn lemma_line_endings(t: Seq<char>)
    requires
        t.len() > 0 ==> t.last() != '\r' && t.last() != '\n',
    ensures
        lines(t.push('\r').push('\n')) == lines(t.push('\n')),
        lines(t.push('\n')) == if t.len() == 0 {
            seq![t]
        } else {
            lines(t)
        },
{
    lemma_pieces_nonempty(t);
    let r = t.push('\r');
    let a = r.push('\n');
    let b = t.push('\n');
    assert(r.drop_last() =~= t && a.drop_last() =~= r && b.drop_last() =~= t);
    lemma_pieces_nonempty(r);
    if t.len() > 0 {
        lemma_pieces_nonempty(t.drop_last());
    }
    let p = pieces(t);
    assert(p.last().push('\r').drop_last() =~= p.last());
    assert(p.len() > 0 && (t.len() > 0 ==> p.last().len() > 0 && p.last().last() == t.last()));
    assert(lines(b) =~= lines(a));
    assert(without_return(p.last()) == p.last());
    if t.len() == 0 {
        assert(p.last() =~= t);
        assert(lines(b) =~= seq![t]);
    } else {
        assert(lines(b) =~= lines(t));
    }
}

/// A capital hexadecimal digit counts like the small one, and the digits count up.
pub proof fn lemma_hex_digits(c: u8)
    ensures
        65 <= c <= 90 ==> hex_value(c) == hex_value((c + 32) as u8),
        hex_value(48) == Some(0u8),
        hex_value(97) == Some(10u8),
        hex_value(c) is Some && c < 255 && hex_value((c + 1) as u8) is Some ==> hex_value(
            (c + 1) as u8,
        ) == Some((hex_value(c)->0 + 1) as u8),
        hex_value(c) matches Some(v) ==> v < 16,
{
}

/// A number in a field ends with the number, and fills the field.
pub proof fn lemma_flush_right(t: Seq<char>, width: nat)
    ensures
        ({
            let r = flush_right(t, width);
            &&& r.len() >= t.len()
            &&& r.skip(r.len() - t.len()) == t
            &&& r.len() >= width
            &&& r.len() == width || r == t
            &&& forall|i: int| 0 <= i < r.len() - t.len() ==> #[trigger] r[i] == ' '
        }),
{
    let r = flush_right(t, width);
    assert(r.skip(r.len() - t.len()) =~= t);
}

/// Each digit goes behind those of what it is a unit of.
pub proof fn lemma_digits_go_behind(v: nat, d: nat, n: nat)
    requires
        d < 10,
    ensures
        fixed_digits(10 * v + d, 10, n + 1) == fixed_digits(v, 10, n).push((48 + d) as char),
        v > 0 ==> decimal(10 * v + d) == decimal(v).push((48 + d) as char),
        decimal(d) == seq![(48 + d) as char],
        signed_decimal(v as int) == decimal(v),
        v > 0 ==> signed_decimal(-(v as int)) == seq!['-'] + decimal(v),
{
    let w = 10 * v + d;
    assert(w / 10 == v && w % 10 == d);
    assert(decimal(d) =~= seq![(48 + d) as char]);
}

} // verus!
