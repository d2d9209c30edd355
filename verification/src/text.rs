//! Character-sequence helpers shared by the engine: equality and
//! lexicographic order on strings, and building strings character by
//! character.

use vstd::prelude::*;

verus! {

/// Strict lexicographic order on character sequences, comparing scalar
/// values position by position; a proper prefix sorts first.
pub open spec fn lex_lt(a: Seq<char>, b: Seq<char>) -> bool
    decreases a.len(),
{
    if b.len() == 0 {
        false
    } else if a.len() == 0 {
        true
    } else if (a[0] as u32) < (b[0] as u32) {
        true
    } else if (a[0] as u32) > (b[0] as u32) {
        false
    } else {
        lex_lt(a.skip(1), b.skip(1))
    }
}

/// Whether two strings hold the same characters.
pub fn str_eq(a: &str, b: &str) -> (r: bool)
    ensures
        r == (a@ == b@),
{
    let alen = a.unicode_len();
    let blen = b.unicode_len();
    if alen != blen {
        proof {
            assert(a@ != b@);
        }
        return false;
    }
    let mut i: usize = 0;
    while i < alen
        invariant
            0 <= i <= alen,
            alen == a@.len(),
            alen == b@.len(),
            a@.subrange(0, i as int) == b@.subrange(0, i as int),
        decreases alen - i,
    {
        let ca = a.get_char(i);
        let cb = b.get_char(i);
        if ca != cb {
            proof {
                assert(a@ != b@);
            }
            return false;
        }
        proof {
            assert(a@.subrange(0, i + 1) =~= a@.subrange(0, i as int).push(a@[i as int]));
            assert(b@.subrange(0, i + 1) =~= b@.subrange(0, i as int).push(b@[i as int]));
        }
        i = i + 1;
    }
    proof {
        assert(a@.subrange(0, alen as int) =~= a@);
        assert(b@.subrange(0, alen as int) =~= b@);
    }
    true
}

/// Whether `a` sorts strictly before `b` in lexicographic order.
pub fn str_lt(a: &str, b: &str) -> (r: bool)
    ensures
        r == lex_lt(a@, b@),
{
    let alen = a.unicode_len();
    let blen = b.unicode_len();
    let n = if alen < blen {
        alen
    } else {
        blen
    };
    proof {
        assert(a@.skip(0) =~= a@);
        assert(b@.skip(0) =~= b@);
    }
    let mut i: usize = 0;
    while i < n
        invariant
            0 <= i <= n,
            alen == a@.len(),
            blen == b@.len(),
            n == if alen < blen { alen } else { blen },
            lex_lt(a@, b@) == lex_lt(a@.skip(i as int), b@.skip(i as int)),
        decreases n - i,
    {
        let ca = a.get_char(i);
        let cb = b.get_char(i);
        proof {
            assert(a@.skip(i as int)[0] == a@[i as int]);
            assert(b@.skip(i as int)[0] == b@[i as int]);
        }
        if ca != cb {
            return (ca as u32) < (cb as u32);
        }
        proof {
            assert(a@.skip(i as int).skip(1) =~= a@.skip(i + 1));
            assert(b@.skip(i as int).skip(1) =~= b@.skip(i + 1));
        }
        i = i + 1;
    }
    proof {
        assert(a@.skip(n as int).len() == alen - n);
        assert(b@.skip(n as int).len() == blen - n);
    }
    alen < blen
}

/// Relies on `String::push`: appends the one character at the end.
#[verifier::external_body]
pub fn string_push_char(s: &mut String, c: char)
    ensures
        final(s)@ == old(s)@.push(c),
{
    s.push(c);
}

/// A finite set of strings, kept as a lexicographically sorted vector
/// without duplicates, so that two sets holding the same names are equal
/// values no matter in which order the names arrived.
#[derive(Debug, Clone, PartialEq, Eq, Default)]
pub struct StrSet {
    items: Vec<String>,
}

impl StrSet {
    /// The members in sorted order.
    pub closed spec fn seq_view(&self) -> Seq<Seq<char>> {
        Seq::new(self.items@.len(), |i: int| self.items@[i]@)
    }

    /// The members as a set.
    pub open spec fn set_view(&self) -> Set<Seq<char>> {
        self.seq_view().to_set()
    }

    /// Sorted strictly ascending, hence free of duplicates.
    pub closed spec fn wf(&self) -> bool {
        forall|i: int, j: int|
            0 <= i < j < self.seq_view().len() ==> lex_lt(self.seq_view()[i], self.seq_view()[j])
    }

    /// The empty set.
    pub fn new() -> (r: StrSet)
        ensures
            r.wf(),
            r.seq_view() =~= Seq::<Seq<char>>::empty(),
            r.set_view() =~= Set::<Seq<char>>::empty(),
    {
        let r = StrSet { items: Vec::new() };
        proof {
            assert forall|x: Seq<char>| !r.set_view().contains(x) by {
                assert(!r.seq_view().contains(x));
            }
        }
        r
    }

    /// How many members the set has.
    pub fn len(&self) -> (r: usize)
        ensures
            r == self.seq_view().len(),
    {
        self.items.len()
    }


    /// Whether `s` is a member.
    pub fn contains(&self, s: &str) -> (r: bool)
        ensures
            r == self.set_view().contains(s@),
    {
        let n = self.items.len();
        let mut i: usize = 0;
        while i < n
            invariant
                0 <= i <= n,
                n == self.items@.len(),
                forall|j: int| 0 <= j < i ==> self.seq_view()[j] != s@,
            decreases n - i,
        {
            if str_eq(self.items[i].as_str(), s) {
                proof {
                    assert(self.seq_view()[i as int] == s@);
                    assert(self.seq_view().contains(s@));
                }
                return true;
            }
            i = i + 1;
        }
        proof {
            assert(!self.seq_view().contains(s@));
        }
        false
    }

    /// Adds `s`; a member that is already present is left alone.
    pub fn insert(&mut self, s: String)
        requires
            old(self).wf(),
        ensures
            final(self).wf(),
            final(self).set_view() =~= old(self).set_view().insert(s@),
            final(self).seq_view().len() == if old(self).set_view().contains(s@) {
                old(self).seq_view().len()
            } else {
                old(self).seq_view().len() + 1
            },
    {
        let n = self.items.len();
        let mut i: usize = 0;
        let mut stop = false;
        while i < n && !stop
            invariant
                0 <= i <= n,
                old(self).wf(),
                *self == *old(self),
                n == self.items@.len(),
                forall|j: int| 0 <= j < i ==> lex_lt(self.seq_view()[j], s@),
                stop ==> i < n && lex_lt(s@, self.seq_view()[i as int]),
            decreases n - i + if stop { 0int } else { 1int },
        {
            if str_eq(self.items[i].as_str(), s.as_str()) {
                proof {
                    assert(self.seq_view()[i as int] == s@);
                    assert(self.seq_view().contains(s@));
                    assert(self.set_view().insert(s@) =~= self.set_view());
                }
                return;
            }
            if str_lt(s.as_str(), self.items[i].as_str()) {
                proof {
                    assert(self.seq_view()[i as int] == self.items@[i as int]@);
                }
                stop = true;
            } else {
                proof {
                    lemma_lex_connex(self.seq_view()[i as int], s@);
                }
                i = i + 1;
            }
        }
        proof {
            assert(i < n ==> lex_lt(s@, self.seq_view()[i as int]));
        }
        let ghost old_seq = self.seq_view();
        self.items.insert(i, s);
        proof {
            assert(self.seq_view() =~= old_seq.insert(i as int, s@));
            let new_seq = self.seq_view();
            assert forall|p: int, q: int|
                0 <= p < q < new_seq.len() implies lex_lt(new_seq[p], new_seq[q]) by {
                if q < i {
                    assert(new_seq[p] == old_seq[p]);
                    assert(new_seq[q] == old_seq[q]);
                } else if p > i {
                    assert(new_seq[p] == old_seq[p - 1]);
                    assert(new_seq[q] == old_seq[q - 1]);
                } else if p < i && q == i {
                    assert(new_seq[p] == old_seq[p]);
                    assert(lex_lt(old_seq[p], s@));
                } else if p < i && q > i {
                    assert(new_seq[p] == old_seq[p]);
                    assert(new_seq[q] == old_seq[q - 1]);
                    assert(lex_lt(old_seq[p], s@));
                    assert(q - 1 >= i);
                    if q - 1 == i {
                        assert(lex_lt(s@, old_seq[q - 1]));
                    } else {
                        assert(lex_lt(old_seq[i as int], old_seq[q - 1]));
                        lemma_lex_trans(s@, old_seq[i as int], old_seq[q - 1]);
                    }
                    lemma_lex_trans(old_seq[p], s@, old_seq[q - 1]);
                } else if p == i {
                    assert(new_seq[q] == old_seq[q - 1]);
                    assert(q - 1 >= i);
                    if q - 1 == i {
                        assert(lex_lt(s@, old_seq[q - 1]));
                    } else {
                        assert(lex_lt(old_seq[i as int], old_seq[q - 1]));
                        lemma_lex_trans(s@, old_seq[i as int], old_seq[q - 1]);
                    }
                }
            }
            assert(!old_seq.contains(s@)) by {
                if old_seq.contains(s@) {
                    let k = choose|k: int| 0 <= k < old_seq.len() && old_seq[k] == s@;
                    if k < i {
                        assert(lex_lt(old_seq[k], s@));
                        lemma_lex_irrefl(s@);
                    } else {
                        assert(i < old_seq.len());
                        assert(lex_lt(s@, old_seq[i as int]));
                        if k == i {
                            lemma_lex_irrefl(s@);
                        } else {
                            assert(lex_lt(old_seq[i as int], old_seq[k]));
                            lemma_lex_trans(s@, old_seq[i as int], old_seq[k]);
                            lemma_lex_irrefl(s@);
                        }
                    }
                }
            }
            assert forall|x: Seq<char>| #[trigger] self.set_view().contains(x) implies old(
                self,
            ).set_view().insert(s@).contains(x) by {
                let k = choose|k: int| 0 <= k < new_seq.len() && new_seq[k] == x;
                if k < i {
                    assert(old_seq[k] == x);
                    assert(old_seq.contains(x));
                } else if k > i {
                    assert(old_seq[k - 1] == x);
                    assert(old_seq.contains(x));
                }
            }
            assert forall|x: Seq<char>|
                old(self).set_view().insert(s@).contains(x) implies #[trigger] self.set_view().contains(
                x,
            ) by {
                if x == s@ {
                    assert(new_seq[i as int] == x);
                    assert(new_seq.contains(x));
                } else {
                    let k = choose|k: int| 0 <= k < old_seq.len() && old_seq[k] == x;
                    if k < i {
                        assert(new_seq[k] == x);
                    } else {
                        assert(new_seq[k + 1] == x);
                    }
                    assert(new_seq.contains(x));
                }
            }
        }
    }

    /// Whether every member of this set is a member of `other`.
    pub fn subset_of(&self, other: &StrSet) -> (r: bool)
        ensures
            r == self.set_view().subset_of(other.set_view()),
    {
        let n = self.items.len();
        let mut i: usize = 0;
        while i < n
            invariant
                0 <= i <= n,
                n == self.items@.len(),
                forall|j: int| 0 <= j < i ==> other.set_view().contains(self.seq_view()[j]),
            decreases n - i,
        {
            if !other.contains(self.items[i].as_str()) {
                proof {
                    assert(self.seq_view()[i as int] == self.items@[i as int]@);
                    assert(self.seq_view().contains(self.seq_view()[i as int]));
                    assert(self.set_view().contains(self.seq_view()[i as int]));
                }
                return false;
            }
            i = i + 1;
        }
        proof {
            assert forall|x: Seq<char>| #[trigger] self.set_view().contains(x) implies other.set_view().contains(
                x,
            ) by {
                let k = choose|k: int| 0 <= k < self.seq_view().len() && self.seq_view()[k] == x;
                assert(other.set_view().contains(self.seq_view()[k]));
            }
        }
        true
    }
}

/// No sequence sorts before itself.
pub proof fn lemma_lex_irrefl(a: Seq<char>)
    ensures
        !lex_lt(a, a),
    decreases a.len(),
{
    if a.len() > 0 {
        lemma_lex_irrefl(a.skip(1));
    }
}

/// Two distinct sequences compare one way or the other.
pub proof fn lemma_lex_connex(a: Seq<char>, b: Seq<char>)
    ensures
        lex_lt(a, b) || lex_lt(b, a) || a == b,
    decreases a.len(),
{
    if a.len() == 0 || b.len() == 0 {
        if a.len() == b.len() {
            assert(a =~= b);
        }
    } else {
        if a[0] == b[0] {
            lemma_lex_connex(a.skip(1), b.skip(1));
            if a.skip(1) == b.skip(1) {
                assert(a =~= seq![a[0]] + a.skip(1));
                assert(b =~= seq![b[0]] + b.skip(1));
            }
        } else {
            assert((a[0] as u32) != (b[0] as u32)) by {
                assert(a[0] != b[0]);
                if a[0] as u32 == b[0] as u32 {
                    assert(a[0] == b[0]) by {
                        lemma_char_u32_injective(a[0], b[0]);
                    }
                }
            }
        }
    }
}

/// Lexicographic order is transitive.
pub proof fn lemma_lex_trans(a: Seq<char>, b: Seq<char>, c: Seq<char>)
    requires
        lex_lt(a, b),
        lex_lt(b, c),
    ensures
        lex_lt(a, c),
    decreases a.len() + b.len() + c.len(),
{
    if c.len() == 0 {
    } else if b.len() == 0 {
    } else if a.len() == 0 {
    } else {
        if (a[0] as u32) < (b[0] as u32) {
            if (b[0] as u32) <= (c[0] as u32) {
            } else {
            }
        } else if (a[0] as u32) == (b[0] as u32) {
            if (b[0] as u32) < (c[0] as u32) {
            } else if (b[0] as u32) == (c[0] as u32) {
                lemma_lex_trans(a.skip(1), b.skip(1), c.skip(1));
            }
        }
    }
}

/// Characters with the same scalar value are the same character.
proof fn lemma_char_u32_injective(a: char, b: char)
    requires
        a as u32 == b as u32,
    ensures
        a == b,
{
}

/// The decimal digit character for one digit value.
pub open spec fn digit_char(d: nat) -> char {
    ((d + 48) as u8) as char
}

/// The decimal digits of a number, most significant first.
pub open spec fn spec_digits(n: nat) -> Seq<char>
    decreases n,
{
    if n < 10 {
        seq![digit_char(n)]
    } else {
        spec_digits(n / 10).push(digit_char(n % 10))
    }
}

/// A digit string with its trailing zeros dropped.
pub open spec fn trim_zeros(s: Seq<char>) -> Seq<char>
    decreases s.len(),
{
    if s.len() > 0 && s.last() == '0' {
        trim_zeros(s.drop_last())
    } else {
        s
    }
}

/// A positive number's digits start with a nonzero digit.
pub proof fn lemma_leading_digit(v: nat)
    requires
        v > 0,
    ensures
        spec_digits(v).len() >= 1,
        spec_digits(v)[0] != '0',
    decreases v,
{
    if v >= 10 {
        lemma_leading_digit(v / 10);
    }
}

/// Trimming keeps a string whose first character is not a zero.
pub proof fn lemma_trim_keeps_leading(s: Seq<char>)
    requires
        s.len() >= 1,
        s[0] != '0',
    ensures
        trim_zeros(s).len() >= 1,
        trim_zeros(s)[0] == s[0],
    decreases s.len(),
{
    if s.len() > 0 && s.last() == '0' {
        lemma_trim_keeps_leading(s.drop_last());
    }
}

/// A prefix survives trimming when something after it survives.
pub proof fn lemma_trim_prepend(c: char, s: Seq<char>)
    requires
        trim_zeros(s).len() >= 1,
    ensures
        trim_zeros(seq![c] + s) == seq![c] + trim_zeros(s),
    decreases s.len(),
{
    if s.len() == 0 {
    } else {
        let t = seq![c] + s;
        assert(t.last() == s.last());
        if s.last() == '0' {
            assert(t.drop_last() =~= seq![c] + s.drop_last());
            lemma_trim_prepend(c, s.drop_last());
        }
    }
}

/// Appends the decimal digits of `n`.
pub fn push_digits(s: &mut String, n: u64)
    ensures
        final(s)@ == old(s)@ + spec_digits(n as nat),
    decreases n,
{
    if n < 10 {
        string_push_char(s, ((n as u8) + 48) as char);
        proof {
            assert(old(s)@.push(digit_char(n as nat)) =~= old(s)@ + spec_digits(n as nat));
        }
    } else {
        push_digits(s, n / 10);
        string_push_char(s, (((n % 10) as u8) + 48) as char);
        proof {
            assert((old(s)@ + spec_digits((n / 10) as nat)).push(digit_char((n % 10) as nat))
                =~= old(s)@ + spec_digits(n as nat));
        }
    }
}

/// The characters a fixed-point pixel length prints as: a possible
/// minus sign, the whole pixels, and, when the 1/64 fraction is not
/// zero, a point and the fraction's exact decimal expansion. A 64th is
/// a whole number of millionths, so the expansion is the fraction times
/// 15625, padded on the left to six digits, with trailing zeros
/// dropped.
pub open spec fn spec_px_chars(v: int) -> Seq<char> {
    let a = (if v < 0 {
        -v
    } else {
        v
    }) as nat;
    let sign: Seq<char> = if v < 0 {
        seq!['-']
    } else {
        Seq::empty()
    };
    let whole = a / 64;
    let frac = a % 64;
    if frac == 0 {
        sign + spec_digits(whole)
    } else {
        sign + spec_digits(whole) + seq!['.'] + spec_frac_chars(frac)
    }
}

/// The decimal expansion of a nonzero number of 64ths of a pixel:
/// `frac * 15625` millionths, written with six digits (one leading zero
/// where the product has only five), trailing zeros dropped.
pub open spec fn spec_frac_chars(frac: nat) -> Seq<char> {
    let full = spec_digits(frac * 15625);
    let padded = if frac * 15625 < 100000 {
        seq!['0'] + full
    } else {
        full
    };
    trim_zeros(padded)
}

/// Appends the print form of a length counted in 1/64-pixel units.
pub fn push_px_units(s: &mut String, raw: i64)
    ensures
        final(s)@ == old(s)@ + spec_px_chars(raw as int),
{
    let a: u64 = if raw < 0 {
        string_push_char(s, '-');
        (-(raw as i128)) as u64
    } else {
        raw as u64
    };
    let ghost base = s@;
    let whole: u64 = a / 64;
    let frac: u64 = a % 64;
    push_digits(s, whole);
    if frac == 0 {
        proof {
            assert(final(s)@ =~= old(s)@ + spec_px_chars(raw as int));
        }
        return ;
    }
    string_push_char(s, '.');
    let v6: u64 = frac * 15625;
    let ghost full = spec_digits(v6 as nat);
    let ghost padded = if v6 < 100000 {
        seq!['0'] + full
    } else {
        full
    };
    proof {
        lemma_leading_digit(v6 as nat);
        lemma_trim_keeps_leading(full);
        if v6 < 100000 {
            lemma_trim_prepend('0', full);
        }
    }
    if v6 < 100000 {
        string_push_char(s, '0');
    }
    let mut w: u64 = v6;
    while w % 10 == 0
        invariant
            w >= 1,
            trim_zeros(spec_digits(w as nat)) == trim_zeros(full),
        decreases w,
    {
        proof {
            assert(w >= 10);
            assert(digit_char((w % 10) as nat) == '0');
            assert(spec_digits(w as nat) == spec_digits((w / 10) as nat).push('0'));
            assert(spec_digits(w as nat).drop_last() =~= spec_digits((w / 10) as nat));
        }
        w = w / 10;
    }
    proof {
        assert(spec_digits(w as nat).last() == digit_char((w % 10) as nat));
        assert(digit_char((w % 10) as nat) != '0') by {
            assert(w % 10 != 0);
            assert(((w % 10 + 48) as u8) as char as u32 == w % 10 + 48);
        }
        assert(trim_zeros(spec_digits(w as nat)) == spec_digits(w as nat));
    }
    let ghost before_digits = s@;
    push_digits(s, w);
    proof {
        assert(s@ =~= before_digits + spec_digits(w as nat));
        assert(spec_digits(w as nat) == trim_zeros(full));
        assert(trim_zeros(padded) == if v6 < 100000 {
            seq!['0'] + trim_zeros(full)
        } else {
            trim_zeros(full)
        });
        assert(s@ =~= old(s)@ + spec_px_chars(raw as int));
    }
}

} // verus!
