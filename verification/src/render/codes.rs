//! Chord codes: words over the four directions of the pad, how they are written, and the
//! ordered set of those that were played.

use crate::text::{
    char_texts, chars_of, is_white, lemma_pieces_nonempty, lines, pieces, string_of, text_lines, texts,
    trim_chars, trimmed, trimmed_end, trimmed_start,
};
use vstd::prelude::*;

verus! {

/// One press.
#[derive(Debug, Clone, Copy, PartialEq, Eq, Hash, Structural)]
pub enum ChordDir {
    Up,
    Down,
    Left,
    Right,
}

/// Where a direction stands among the four.
pub open spec fn rank(d: ChordDir) -> int {
    match d {
        ChordDir::Up => 0,
        ChordDir::Down => 1,
        ChordDir::Left => 2,
        ChordDir::Right => 3,
    }
}

/// The slot of a direction.
pub fn dir_index(d: ChordDir) -> (i: usize)
    ensures
        i == rank(d),
        i < 4,
{
    match d {
        ChordDir::Up => 0,
        ChordDir::Down => 1,
        ChordDir::Left => 2,
        ChordDir::Right => 3,
    }
}

/// The direction of a slot.
pub fn dir_at(i: usize) -> (d: ChordDir)
    requires
        i < 4,
    ensures
        rank(d) == i,
{
    if i == 0 {
        ChordDir::Up
    } else if i == 1 {
        ChordDir::Down
    } else if i == 2 {
        ChordDir::Left
    } else {
        ChordDir::Right
    }
}

/// The letter of a direction.
pub open spec fn letter(d: ChordDir) -> char {
    match d {
        ChordDir::Up => 'U',
        ChordDir::Down => 'D',
        ChordDir::Left => 'L',
        ChordDir::Right => 'R',
    }
}

/// The direction of a letter.
pub open spec fn dir_of(c: char) -> Option<ChordDir> {
    if c == 'U' {
        Some(ChordDir::Up)
    } else if c == 'D' {
        Some(ChordDir::Down)
    } else if c == 'L' {
        Some(ChordDir::Left)
    } else if c == 'R' {
        Some(ChordDir::Right)
    } else {
        None
    }
}

/// A code as letters.
pub open spec fn code_text(code: Seq<ChordDir>) -> Seq<char> {
    Seq::new(code.len(), |i: int| letter(code[i]))
}

/// Letters and nothing else.
pub open spec fn all_letters(t: Seq<char>) -> bool {
    forall|i: int| 0 <= i < t.len() ==> dir_of(#[trigger] t[i]) is Some
}

/// The code that a text spells, white space around it aside.
pub open spec fn code_of(t: Seq<char>) -> Option<Seq<ChordDir>> {
    let s = trimmed(t);
    if all_letters(s) {
        Some(Seq::new(s.len(), |i: int| dir_of(s[i])->0))
    } else {
        None
    }
}

/// A code as letters.
pub fn code_to_str(code: &[ChordDir]) -> (s: String)
    ensures
        s@ == code_text(code@),
{
    let mut out: Vec<char> = Vec::new();
    let mut i: usize = 0;
    while i < code.len()
        invariant
            i <= code@.len(),
            out@ == code_text(code@.take(i as int)),
        decreases code@.len() - i,
    {
        let c: char = match code[i] {
            ChordDir::Up => 'U',
            ChordDir::Down => 'D',
            ChordDir::Left => 'L',
            ChordDir::Right => 'R',
        };
        out.push(c);
        i = i + 1;
        assert(out@ =~= code_text(code@.take(i as int)));
    }
    assert(code@.take(i as int) =~= code@);
    string_of(out.as_slice())
}

fn code_from_chars(t: &[char]) -> (r: Option<Vec<ChordDir>>)
    ensures
        r is Some <==> all_letters(t@),
        r matches Some(v) ==> v@ == Seq::new(t@.len(), |i: int| dir_of(t@[i])->0),
{
    let mut out: Vec<ChordDir> = Vec::new();
    let mut i: usize = 0;
    while i < t.len()
        invariant
            i <= t@.len(),
            out@.len() == i,
            forall|k: int| 0 <= k < i ==> dir_of(#[trigger] t@[k]) == Some(out@[k]),
        decreases t@.len() - i,
    {
        let c: char = t[i];
        if c == 'U' {
            out.push(ChordDir::Up);
        } else if c == 'D' {
            out.push(ChordDir::Down);
        } else if c == 'L' {
            out.push(ChordDir::Left);
        } else if c == 'R' {
            out.push(ChordDir::Right);
        } else {
            assert(dir_of(t@[i as int]) is None);
            return None;
        }
        i = i + 1;
    }
    assert(out@ =~= Seq::new(t@.len(), |i: int| dir_of(t@[i])->0));
    Some(out)
}

/// The code that a text spells; `None` where it holds anything but the four letters.
pub fn code_from_str(s: &str) -> (r: Option<Vec<ChordDir>>)
    ensures
        match r {
            Some(v) => code_of(s@) == Some(v@),
            None => code_of(s@) is None,
        },
{
    let mut v = chars_of(s);
    trim_chars(&mut v);
    code_from_chars(v.as_slice())
}

proof fn lemma_letters_untrimmed(t: Seq<char>)
    requires
        all_letters(t),
    ensures
        trimmed(t) == t,
{
    if t.len() > 0 {
        assert(dir_of(t[0]) is Some);
        assert(dir_of(t[t.len() - 1]) is Some);
        assert(!is_white(t[0]));
        assert(!is_white(t.last()));
    }
    assert(trimmed_start(t) == t);
    assert(trimmed_end(t) == t);
}

/// A code read back from its own letters is that code.
pub proof fn lemma_code_roundtrip(code: Seq<ChordDir>)
    ensures
        code_of(code_text(code)) == Some(code),
{
    let t = code_text(code);
    assert forall|i: int| 0 <= i < t.len() implies dir_of(#[trigger] t[i]) == Some(code[i]) by {}
    assert(all_letters(t));
    lemma_letters_untrimmed(t);
    assert(Seq::new(t.len(), |i: int| dir_of(t[i])->0) =~= code);
}

/// The order of codes: letter by letter, a prefix before what continues it.
pub open spec fn code_lt(a: Seq<ChordDir>, b: Seq<ChordDir>) -> bool
    decreases a.len(),
{
    if b.len() == 0 {
        false
    } else if a.len() == 0 {
        true
    } else if a[0] == b[0] {
        code_lt(a.skip(1), b.skip(1))
    } else {
        rank(a[0]) < rank(b[0])
    }
}

proof fn lemma_code_lt_total(a: Seq<ChordDir>, b: Seq<ChordDir>)
    ensures
        code_lt(a, b) || a == b || code_lt(b, a),
    decreases a.len(),
{
    if a.len() == 0 || b.len() == 0 {
        if a.len() == b.len() {
            assert(a =~= b);
        }
    } else if a[0] == b[0] {
        lemma_code_lt_total(a.skip(1), b.skip(1));
        if a.skip(1) == b.skip(1) {
            assert(a =~= seq![a[0]] + a.skip(1));
            assert(b =~= seq![b[0]] + b.skip(1));
        }
    }
}

proof fn lemma_code_lt_irreflexive(a: Seq<ChordDir>)
    ensures
        !code_lt(a, a),
    decreases a.len(),
{
    if a.len() > 0 {
        lemma_code_lt_irreflexive(a.skip(1));
    }
}

proof fn lemma_code_lt_transitive(a: Seq<ChordDir>, b: Seq<ChordDir>, c: Seq<ChordDir>)
    requires
        code_lt(a, b),
        code_lt(b, c),
    ensures
        code_lt(a, c),
    decreases a.len(),
{
    if a.len() > 0 && a[0] == b[0] && b[0] == c[0] {
        lemma_code_lt_transitive(a.skip(1), b.skip(1), c.skip(1));
    }
}

fn code_before(a: &[ChordDir], b: &[ChordDir]) -> (r: bool)
    ensures
        r == code_lt(a@, b@),
{
    let mut i: usize = 0;
    assert(a@.skip(0) =~= a@);
    assert(b@.skip(0) =~= b@);
    while i < a.len() && i < b.len() && a[i] == b[i]
        invariant
            i <= a@.len(),
            i <= b@.len(),
            code_lt(a@, b@) == code_lt(a@.skip(i as int), b@.skip(i as int)),
        decreases a@.len() - i,
    {
        proof {
            assert(a@.skip(i as int).skip(1) =~= a@.skip(i + 1));
            assert(b@.skip(i as int).skip(1) =~= b@.skip(i + 1));
        }
        i = i + 1;
    }
    if i >= b.len() {
        false
    } else if i >= a.len() {
        true
    } else {
        dir_index(a[i]) < dir_index(b[i])
    }
}

pub(crate) fn same_code(a: &[ChordDir], b: &[ChordDir]) -> (r: bool)
    ensures
        r == (a@ == b@),
{
    if a.len() != b.len() {
        return false;
    }
    let mut i: usize = 0;
    while i < a.len()
        invariant
            i <= a@.len() == b@.len(),
            forall|k: int| 0 <= k < i ==> a@[k] == b@[k],
        decreases a@.len() - i,
    {
        if a[i] != b[i] {
            return false;
        }
        i = i + 1;
    }
    assert(a@ =~= b@);
    true
}

pub(crate) fn copy_code(c: &[ChordDir]) -> (r: Vec<ChordDir>)
    ensures
        r@ == c@,
{
    let mut out: Vec<ChordDir> = Vec::new();
    let mut i: usize = 0;
    while i < c.len()
        invariant
            i <= c@.len(),
            out@ == c@.take(i as int),
        decreases c@.len() - i,
    {
        out.push(c[i]);
        i = i + 1;
        assert(out@ =~= c@.take(i as int));
    }
    assert(c@.take(i as int) =~= c@);
    out
}

/// Codes in ascending order, none twice.
pub open spec fn ascending(s: Seq<Seq<ChordDir>>) -> bool {
    forall|i: int, j: int| 0 <= i < j < s.len() ==> code_lt(#[trigger] s[i], #[trigger] s[j])
}

/// An ordered set of codes.
#[derive(Debug)]
pub struct CodeSet {
    codes: Vec<Vec<ChordDir>>,
}

impl View for CodeSet {
    type V = Seq<Seq<ChordDir>>;

    closed spec fn view(&self) -> Seq<Seq<ChordDir>> {
        Seq::new(self.codes@.len(), |i: int| self.codes@[i]@)
    }
}

impl CodeSet {
    /// In order, none twice.
    pub open spec fn wf(&self) -> bool {
        ascending(self@)
    }

    /// No codes.
    pub fn new() -> (s: Self)
        ensures
            s.wf(),
            s@ == Seq::<Seq<ChordDir>>::empty(),
    {
        let s = CodeSet { codes: Vec::new() };
        assert(s@ =~= Seq::<Seq<ChordDir>>::empty());
        s
    }

    /// How many.
    pub fn len(&self) -> (n: usize)
        ensures
            n == self@.len(),
    {
        self.codes.len()
    }

    /// The code at a place in the order.
    pub fn at(&self, i: usize) -> (c: &[ChordDir])
        requires
            i < self@.len(),
        ensures
            c@ == self@[i as int],
    {
        self.codes[i].as_slice()
    }

    /// Whether a code is in the set.
    pub fn contains(&self, code: &[ChordDir]) -> (b: bool)
        ensures
            b == self@.contains(code@),
    {
        let mut i: usize = 0;
        while i < self.codes.len()
            invariant
                i <= self.codes@.len(),
                forall|k: int| 0 <= k < i ==> self@[k] != code@,
            decreases self.codes@.len() - i,
        {
            if same_code(self.codes[i].as_slice(), code) {
                assert(self@[i as int] == code@);
                return true;
            }
            i = i + 1;
        }
        false
    }

    /// Put a code in. Tells whether it was new.
    pub fn insert(&mut self, code: &[ChordDir]) -> (fresh: bool)
        requires
            old(self).wf(),
        ensures
            final(self).wf(),
            fresh == !old(self)@.contains(code@),
            !fresh ==> final(self)@ == old(self)@,
            forall|c: Seq<ChordDir>|
                final(self)@.contains(c) <==> (old(self)@.contains(c) || c == code@),
    {
        let ghost before = self@;
        let mut i: usize = 0;
        while i < self.codes.len() && code_before(self.codes[i].as_slice(), code)
            invariant
                i <= self.codes@.len(),
                self@ == before,
                *self == *old(self),
                forall|k: int| 0 <= k < i ==> code_lt(#[trigger] before[k], code@),
            decreases self.codes@.len() - i,
        {
            assert(before[i as int] == self.codes@[i as int]@);
            i = i + 1;
        }
        if i < self.codes.len() && same_code(self.codes[i].as_slice(), code) {
            assert(before[i as int] == code@);
            return false;
        }
        proof {
            assert forall|k: int| i <= k < before.len() implies code_lt(
                code@,
                #[trigger] before[k],
            ) by {
                assert(before[i as int] == self.codes@[i as int]@);
                lemma_code_lt_total(before[i as int], code@);
                if k > i {
                    lemma_code_lt_transitive(code@, before[i as int], before[k]);
                }
            }
            if before.contains(code@) {
                let k = choose|k: int| 0 <= k < before.len() && before[k] == code@;
                lemma_code_lt_irreflexive(code@);
                assert(false);
            }
        }
        let own = copy_code(code);
        self.codes.insert(i, own);
        proof {
            let after = self@;
            assert(after =~= before.insert(i as int, code@));
            assert forall|c: Seq<ChordDir>|
                after.contains(c) <==> (before.contains(c) || c == code@) by {
                if after.contains(c) {
                    let k = choose|k: int| 0 <= k < after.len() && after[k] == c;
                    if k < i {
                        assert(before[k] == c);
                    } else if k > i {
                        assert(before[k - 1] == c);
                    }
                }
                if before.contains(c) {
                    let k = choose|k: int| 0 <= k < before.len() && before[k] == c;
                    if k < i {
                        assert(after[k] == c);
                    } else {
                        assert(after[k + 1] == c);
                    }
                }
                assert(after[i as int] == code@);
            }
        }
        true
    }

    /// Put in every code of another set.
    pub fn insert_all(&mut self, other: &CodeSet)
        requires
            old(self).wf(),
        ensures
            final(self).wf(),
            forall|c: Seq<ChordDir>|
                final(self)@.contains(c) <==> (old(self)@.contains(c) || other@.contains(c)),
    {
        let mut i: usize = 0;
        while i < other.len()
            invariant
                i <= other@.len(),
                self.wf(),
                forall|c: Seq<ChordDir>|
                    self@.contains(c) <==> (old(self)@.contains(c) || other@.take(
                        i as int,
                    ).contains(c)),
            decreases other@.len() - i,
        {
            self.insert(other.at(i));
            proof {
                let a = other@.take(i as int);
                let b = other@.take(i + 1);
                assert forall|c: Seq<ChordDir>|
                    b.contains(c) <==> (a.contains(c) || c == other@[i as int]) by {
                    if b.contains(c) {
                        let k = choose|k: int| 0 <= k < b.len() && b[k] == c;
                        if k < i {
                            assert(a[k] == c);
                        }
                    }
                    if a.contains(c) {
                        let k = choose|k: int| 0 <= k < a.len() && a[k] == c;
                        assert(b[k] == c);
                    }
                    assert(b[i as int] == other@[i as int]);
                }
            }
            i = i + 1;
        }
        assert(other@.take(i as int) =~= other@);
    }
}

/// The codes alone settle the order: two ascending lists of the same codes are one list.
pub proof fn lemma_codes_settle_order(a: Seq<Seq<ChordDir>>, b: Seq<Seq<ChordDir>>)
    requires
        ascending(a),
        ascending(b),
        forall|c: Seq<ChordDir>| a.contains(c) <==> b.contains(c),
    ensures
        a == b,
    decreases a.len(),
{
    if a.len() == 0 {
        if b.len() > 0 {
            assert(b.contains(b[0]));
        }
        assert(a =~= b);
    } else {
        assert(a.contains(a[0]));
        let k = choose|k: int| 0 <= k < b.len() && b[k] == a[0];
        assert(b.contains(b[0]));
        let m = choose|m: int| 0 <= m < a.len() && a[m] == b[0];
        lemma_code_lt_irreflexive(a[0]);
        if k > 0 && m > 0 {
            lemma_code_lt_transitive(a[0], b[0], a[0]);
        }
        assert(a[0] == b[0]);
        let a1 = a.skip(1);
        let b1 = b.skip(1);
        assert forall|c: Seq<ChordDir>| a1.contains(c) <==> b1.contains(c) by {
            if a1.contains(c) {
                let i = choose|i: int| 0 <= i < a1.len() && a1[i] == c;
                assert(a[i + 1] == c);
                assert(b.contains(c));
                let j = choose|j: int| 0 <= j < b.len() && b[j] == c;
                if j == 0 {
                    assert(code_lt(a[0], a[i + 1]));
                }
                assert(b1[j - 1] == c);
            }
            if b1.contains(c) {
                let i = choose|i: int| 0 <= i < b1.len() && b1[i] == c;
                assert(b[i + 1] == c);
                assert(a.contains(c));
                let j = choose|j: int| 0 <= j < a.len() && a[j] == c;
                if j == 0 {
                    assert(code_lt(b[0], b[i + 1]));
                }
                assert(a1[j - 1] == c);
            }
        }
        lemma_codes_settle_order(a1, b1);
        assert(a =~= seq![a[0]] + a1);
        assert(b =~= seq![b[0]] + b1);
    }
}

/// The save file: one code to a line.
pub open spec fn save_text(codes: Seq<Seq<ChordDir>>) -> Seq<char>
    decreases codes.len(),
{
    if codes.len() == 0 {
        Seq::empty()
    } else {
        save_text(codes.drop_last()) + code_text(codes.last()) + seq!['\n']
    }
}

/// A line with something on it.
pub open spec fn nonblank(l: Seq<char>) -> bool {
    trimmed(l).len() > 0
}

/// A line that holds a code.
pub open spec fn holds_code(l: Seq<char>, c: Seq<ChordDir>) -> bool {
    nonblank(l) && code_of(l) == Some(c)
}

/// A code stands on some line.
pub open spec fn on_some_line(ls: Seq<Seq<char>>, c: Seq<ChordDir>) -> bool {
    exists|i: int| 0 <= i < ls.len() && holds_code(#[trigger] ls[i], c)
}

/// A line that is neither blank nor a code.
pub open spec fn is_bad_line(l: Seq<char>) -> bool {
    nonblank(l) && code_of(l) is None
}

fn line_code(l: &Vec<char>) -> (r: Option<Option<Vec<ChordDir>>>)
    ensures
        match r {
            None => !nonblank(l@),
            Some(None) => is_bad_line(l@),
            Some(Some(v)) => holds_code(l@, v@),
        },
{
    let mut v: Vec<char> = Vec::new();
    let mut i: usize = 0;
    while i < l.len()
        invariant
            i <= l@.len(),
            v@ == l@.take(i as int),
        decreases l@.len() - i,
    {
        v.push(l[i]);
        i = i + 1;
        assert(v@ =~= l@.take(i as int));
    }
    assert(l@.take(i as int) =~= l@);
    trim_chars(&mut v);
    if v.len() == 0 {
        return None;
    }
    Some(code_from_chars(v.as_slice()))
}

/// The codes that a save file holds; blank lines and lines that are no code hold none.
pub fn codes_in_text(text: &str) -> (s: CodeSet)
    ensures
        s.wf(),
        forall|c: Seq<ChordDir>| s@.contains(c) <==> on_some_line(lines(text@), c),
{
    let ls = text_lines(text);
    let ghost all = lines(text@);
    let mut out = CodeSet::new();
    let mut i: usize = 0;
    while i < ls.len()
        invariant
            i <= ls@.len(),
            char_texts(ls@) == all,
            out.wf(),
            forall|c: Seq<ChordDir>| out@.contains(c) <==> on_some_line(all.take(i as int), c),
        decreases ls@.len() - i,
    {
        let ghost before = out@;
        assert(all[i as int] == ls@[i as int]@);
        let found = line_code(&ls[i]);
        if let Some(Some(code)) = found {
            out.insert(code.as_slice());
        }
        proof {
            let a = all.take(i as int);
            let b = all.take(i + 1);
            assert forall|c: Seq<ChordDir>|
                on_some_line(b, c) <==> (on_some_line(a, c) || holds_code(all[i as int], c)) by {
                if on_some_line(b, c) {
                    let k = choose|k: int| 0 <= k < b.len() && holds_code(#[trigger] b[k], c);
                    if k < i {
                        assert(holds_code(a[k], c));
                    }
                }
                if on_some_line(a, c) {
                    let k = choose|k: int| 0 <= k < a.len() && holds_code(#[trigger] a[k], c);
                    assert(holds_code(b[k], c));
                }
                if holds_code(all[i as int], c) {
                    assert(holds_code(b[i as int], c));
                }
            }
        }
        i = i + 1;
    }
    assert(all.take(i as int) =~= all);
    out
}

/// The lines of a save file that are neither blank nor a code, to warn about.
pub fn bad_lines(text: &str) -> (r: Vec<String>)
    ensures
        texts(r@) == lines(text@).filter(|l: Seq<char>| is_bad_line(l)),
{
    let ls = text_lines(text);
    let ghost all = lines(text@);
    let ghost f = |l: Seq<char>| is_bad_line(l);
    let mut out: Vec<String> = Vec::new();
    let mut i: usize = 0;
    proof {
        reveal(Seq::filter);
        assert(all.take(0).filter(f) =~= Seq::<Seq<char>>::empty());
        assert(texts(out@) =~= all.take(0).filter(f));
    }
    while i < ls.len()
        invariant
            i <= ls@.len(),
            char_texts(ls@) == all,
            f == (|l: Seq<char>| is_bad_line(l)),
            texts(out@) == all.take(i as int).filter(f),
        decreases ls@.len() - i,
    {
        proof {
            reveal(Seq::filter);
            assert(all.take(i + 1).drop_last() =~= all.take(i as int));
            assert(all.take(i + 1).last() == all[i as int]);
            assert(all[i as int] == ls@[i as int]@);
        }
        let found = line_code(&ls[i]);
        if let Some(None) = found {
            let ghost b4 = out@;
            out.push(string_of(ls[i].as_slice()));
            assert(texts(out@) =~= texts(b4).push(
                all[i as int],
            ));
        }
        i = i + 1;
    }
    assert(all.take(i as int) =~= all);
    out
}

/// The save file of a set.
pub fn codes_text(codes: &CodeSet) -> (s: String)
    ensures
        s@ == save_text(codes@),
{
    let mut out = String::new();
    let mut i: usize = 0;
    while i < codes.len()
        invariant
            i <= codes@.len(),
            out@ == save_text(codes@.take(i as int)),
        decreases codes@.len() - i,
    {
        let t = code_to_str(codes.at(i));
        let ghost before = out@;
        out.append(t.as_str());
        out.push('\n');
        proof {
            assert(codes@.take(i + 1).drop_last() =~= codes@.take(i as int));
            assert(codes@.take(i + 1).last() == codes@[i as int]);
            assert(out@ =~= before + code_text(codes@[i as int]) + seq!['\n']);
        }
        i = i + 1;
    }
    assert(codes@.take(i as int) =~= codes@);
    out
}

proof fn lemma_pieces_of_line(a: Seq<char>, b: Seq<char>)
    requires
        forall|i: int| 0 <= i < b.len() ==> b[i] != '\n',
        pieces(a).last() == Seq::<char>::empty(),
    ensures
        pieces(a + b) == pieces(a).update(pieces(a).len() - 1, b),
    decreases b.len(),
{
    lemma_pieces_nonempty(a);
    if b.len() == 0 {
        assert(a + b =~= a);
        assert(b =~= Seq::empty());
        assert(pieces(a) =~= pieces(a).update(pieces(a).len() - 1, b));
    } else {
        let c = b.drop_last();
        lemma_pieces_of_line(a, c);
        assert((a + b).drop_last() =~= a + c);
        assert((a + b).last() == b.last());
        assert(c.push(b.last()) =~= b);
        assert(pieces(a + b) =~= pieces(a).update(pieces(a).len() - 1, b));
    }
}

proof fn lemma_save_pieces(codes: Seq<Seq<ChordDir>>)
    ensures
        pieces(save_text(codes)) == Seq::new(codes.len(), |i: int| code_text(codes[i])).push(
            Seq::empty(),
        ),
    decreases codes.len(),
{
    let want = Seq::new(codes.len(), |i: int| code_text(codes[i])).push(Seq::<char>::empty());
    if codes.len() == 0 {
        assert(pieces(save_text(codes)) =~= want);
    } else {
        let d = codes.drop_last();
        let a = save_text(d);
        let b = code_text(codes.last());
        lemma_save_pieces(d);
        assert forall|i: int| 0 <= i < b.len() implies b[i] != '\n' by {
            assert(b[i] == letter(codes.last()[i]));
        }
        lemma_pieces_of_line(a, b);
        let t = save_text(codes);
        assert(t.drop_last() =~= a + b);
        assert(t.last() == '\n');
        assert(pieces(t) =~= want);
    }
}

/// What a save file gives back is what was saved, order and all.
pub proof fn lemma_save_reloads(codes: Seq<Seq<ChordDir>>, back: Seq<Seq<ChordDir>>)
    requires
        ascending(codes),
        !codes.contains(Seq::empty()),
        ascending(back),
        forall|c: Seq<ChordDir>|
            back.contains(c) <==> on_some_line(lines(save_text(codes)), c),
    ensures
        back == codes,
{
    let ls = lines(save_text(codes));
    lemma_save_pieces(codes);
    assert forall|i: int| 0 <= i < codes.len() implies code_text(codes[i]) == #[trigger] ls[i] by {
        let t = code_text(codes[i]);
        if t.len() > 0 {
            assert(t.last() == letter(codes[i].last()));
        }
    }
    assert(ls.len() == codes.len());
    assert forall|c: Seq<ChordDir>| codes.contains(c) <==> on_some_line(ls, c) by {
        if codes.contains(c) {
            let i = choose|i: int| 0 <= i < codes.len() && codes[i] == c;
            lemma_code_roundtrip(c);
            assert(ls[i] == code_text(c));
            assert(c.len() > 0) by {
                if c.len() == 0 {
                    assert(c =~= Seq::empty());
                }
            }
            assert(all_letters(code_text(c))) by {
                assert forall|k: int| 0 <= k < code_text(c).len() implies dir_of(
                    #[trigger] code_text(c)[k],
                ) is Some by {}
            }
            lemma_letters_untrimmed(code_text(c));
            assert(holds_code(ls[i], c));
        }
        if on_some_line(ls, c) {
            let i = choose|i: int| 0 <= i < ls.len() && holds_code(#[trigger] ls[i], c);
            lemma_code_roundtrip(codes[i]);
            assert(codes[i] == c);
        }
    }
    lemma_codes_settle_order(back, codes);
}

/// Of two codes the one with the lower direction where they first differ comes first; a part of
/// another from its start on comes before it.
pub proof fn lemma_first_difference_decides(a: Seq<ChordDir>, b: Seq<ChordDir>, k: int)
    requires
        0 <= k <= a.len(),
        k <= b.len(),
        a.take(k) == b.take(k),
    ensures
        k < a.len() && k < b.len() && a[k] != b[k] ==> (code_lt(a, b) <==> rank(a[k]) < rank(b[k])),
        k == a.len() && k < b.len() ==> code_lt(a, b),
        k == b.len() && k < a.len() ==> !code_lt(a, b),
    decreases a.len(),
{
    if k > 0 {
        assert(a[0] == a.take(k)[0] && b[0] == b.take(k)[0]);
        assert(a.skip(1).take(k - 1) =~= a.take(k).skip(1));
        assert(b.skip(1).take(k - 1) =~= b.take(k).skip(1));
        lemma_first_difference_decides(a.skip(1), b.skip(1), k - 1);
    }
}

} // verus!
