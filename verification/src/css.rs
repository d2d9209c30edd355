//! The stylesheet data model: values, declarations, selectors and rules,
//! with the specificity order on selectors and the sorted selector lists
//! that the cascade resolver relies on.

use crate::px::Px;
use crate::text::str_eq;
use crate::text::StrSet;
use vstd::prelude::*;

verus! {

/// The one length unit the engine models.
#[derive(Debug, Clone, Copy, PartialEq, Eq, Structural)]
pub enum Unit {
    Px,
}

/// An RGB color.
#[derive(Debug, Clone, Copy, PartialEq, Eq, Structural, Default)]
pub struct Color {
    pub r: u8,
    pub g: u8,
    pub b: u8,
}

/// A declaration's value: a keyword, a pixel length, or a color.
#[derive(Debug, Clone, PartialEq)]
pub enum Value {
    Keyword(String),
    Length(Px, Unit),
    ColorValue(Color),
}

/// The mathematical shape of a `Value`: the keyword's characters, the
/// length in fixed-point units, or the color.
pub ghost enum ValueM {
    Keyword(Seq<char>),
    Length(int),
    Color(Color),
}

impl View for Value {
    type V = ValueM;

    open spec fn view(&self) -> ValueM {
        match self {
            Value::Keyword(s) => ValueM::Keyword(s@),
            Value::Length(n, _) => ValueM::Length(n@),
            Value::ColorValue(c) => ValueM::Color(*c),
        }
    }
}

/// The characters of the `auto` keyword.
pub open spec fn auto_chars() -> Seq<char> {
    "auto"@
}

/// Whether a value is the distinguished `auto` keyword, compared by
/// value, so an explicit `auto` and a defaulted one behave alike.
pub open spec fn spec_is_auto(v: ValueM) -> bool {
    v == ValueM::Keyword(auto_chars())
}

/// The pixel length a value stands for: its length if it is one, else zero.
pub open spec fn spec_to_px(v: ValueM) -> int {
    match v {
        ValueM::Length(n) => n,
        _ => 0,
    }
}

impl Value {
    /// The `auto` keyword as a value.
    pub fn keyword_auto() -> (r: Value)
        ensures
            r@ == ValueM::Keyword(auto_chars()),
    {
        Value::Keyword(String::from_str("auto"))
    }

    /// The zero pixel length as a value.
    pub fn length_zero() -> (r: Value)
        ensures
            r@ == ValueM::Length(0),
    {
        Value::Length(Px::zero(), Unit::Px)
    }

    /// The pixel length this value stands for; anything that is not a
    /// length counts as zero.
    pub fn to_px(&self) -> (r: Px)
        ensures
            r@ == spec_to_px(self@),
    {
        match self {
            Value::Length(n, _) => *n,
            _ => Px::zero(),
        }
    }

    /// Whether this value is the `auto` keyword.
    pub fn is_auto(&self) -> (r: bool)
        ensures
            r == spec_is_auto(self@),
    {
        match self {
            Value::Keyword(s) => str_eq(s.as_str(), "auto"),
            _ => false,
        }
    }

    /// An equal value owned by the caller.
    pub fn duplicate(&self) -> (r: Value)
        ensures
            r@ == self@,
    {
        match self {
            Value::Keyword(s) => Value::Keyword(s.clone()),
            Value::Length(n, _) => Value::Length(*n, Unit::Px),
            Value::ColorValue(c) => Value::ColorValue(*c),
        }
    }
}

/// One `name: value` pair of a rule.
#[derive(Debug, Clone, PartialEq)]
pub struct Declaration {
    pub name: String,
    pub value: Value,
}

/// The mathematical shape of a `Declaration`.
pub ghost struct DeclarationM {
    pub name: Seq<char>,
    pub value: ValueM,
}

impl View for Declaration {
    type V = DeclarationM;

    open spec fn view(&self) -> DeclarationM {
        DeclarationM { name: self.name@, value: self.value@ }
    }
}

impl Declaration {
    /// An equal declaration owned by the caller.
    pub fn duplicate(&self) -> (r: Declaration)
        ensures
            r@ == self@,
    {
        Declaration { name: self.name.clone(), value: self.value.duplicate() }
    }
}

/// A simple selector: an optional tag name, an optional id, and a set of
/// class names; whatever is absent constrains nothing.
#[derive(Debug, Clone, PartialEq, Default)]
pub struct SimpleSelector {
    pub tag_name: Option<String>,
    pub id: Option<String>,
    pub classes: StrSet,
}

/// The mathematical shape of a `SimpleSelector`; the classes stand in
/// their sorted order, free of duplicates.
pub ghost struct SimpleSelectorM {
    pub tag_name: Option<Seq<char>>,
    pub id: Option<Seq<char>>,
    pub classes: Seq<Seq<char>>,
}

impl View for SimpleSelector {
    type V = SimpleSelectorM;

    open spec fn view(&self) -> SimpleSelectorM {
        SimpleSelectorM {
            tag_name: match self.tag_name {
                Some(s) => Some(s@),
                None => None,
            },
            id: match self.id {
                Some(s) => Some(s@),
                None => None,
            },
            classes: self.classes.seq_view(),
        }
    }
}

/// A selector; simple selectors are the one variant the engine knows.
#[derive(Debug, Clone, PartialEq)]
pub enum Selector {
    Simple(SimpleSelector),
}

/// The mathematical shape of a `Selector`.
pub ghost enum SelectorM {
    Simple(SimpleSelectorM),
}

impl View for Selector {
    type V = SelectorM;

    open spec fn view(&self) -> SelectorM {
        match self {
            Selector::Simple(s) => SelectorM::Simple(s@),
        }
    }
}

/// A selector's precedence weight: whether it names an id, how many
/// classes it names, and whether it names a tag.
#[derive(Debug, Clone, Copy, PartialEq, Eq, Structural)]
pub struct Specifity {
    pub ids: usize,
    pub classes: usize,
    pub tags: usize,
}

/// The specificity of a selector's shape.
pub open spec fn spec_specifity(s: SelectorM) -> Specifity {
    match s {
        SelectorM::Simple(ss) => Specifity {
            ids: if ss.id is Some {
                1
            } else {
                0
            },
            classes: ss.classes.len() as usize,
            tags: if ss.tag_name is Some {
                1
            } else {
                0
            },
        },
    }
}

/// Strict lexicographic order on specificity triples: id beats classes,
/// classes beat tag.
pub open spec fn specifity_lt(a: Specifity, b: Specifity) -> bool {
    a.ids < b.ids || (a.ids == b.ids && (a.classes < b.classes || (a.classes == b.classes
        && a.tags < b.tags)))
}

impl Specifity {
    /// Whether this weight is strictly lower than `other`.
    pub fn lt(&self, other: &Specifity) -> (r: bool)
        ensures
            r == specifity_lt(*self, *other),
    {
        self.ids < other.ids || (self.ids == other.ids && (self.classes < other.classes || (
        self.classes == other.classes && self.tags < other.tags)))
    }
}

impl Selector {
    /// The selector's specificity.
    pub fn specifity(&self) -> (r: Specifity)
        ensures
            r == spec_specifity(self@),
    {
        let Selector::Simple(simple) = self;
        let ids: usize = if simple.id.is_some() {
            1
        } else {
            0
        };
        let classes: usize = simple.classes.len();
        let tags: usize = if simple.tag_name.is_some() {
            1
        } else {
            0
        };
        Specifity { ids, classes, tags }
    }
}

/// The specificity of a selector value.
pub open spec fn sel_specifity(s: Selector) -> Specifity {
    spec_specifity(s@)
}

/// Where a selector lands when it is placed into a descending list:
/// after every selector that does not rank strictly below it, so that
/// selectors of equal rank keep their original order.
pub open spec fn insert_desc(x: Selector, s: Seq<Selector>) -> Seq<Selector>
    decreases s.len(),
{
    if s.len() == 0 {
        seq![x]
    } else if !specifity_lt(sel_specifity(s[0]), sel_specifity(x)) {
        seq![s[0]] + insert_desc(x, s.skip(1))
    } else {
        seq![x] + s
    }
}

/// Insertion sort by descending specificity, stable for selectors of
/// equal specificity.
pub open spec fn sort_desc(s: Seq<Selector>) -> Seq<Selector>
    decreases s.len(),
{
    if s.len() == 0 {
        Seq::empty()
    } else {
        insert_desc(s.last(), sort_desc(s.drop_last()))
    }
}

/// Whether a selector list is sorted by descending specificity.
pub open spec fn sorted_desc(s: Seq<Selector>) -> bool {
    forall|i: int, j: int|
        0 <= i < j < s.len() ==> !specifity_lt(sel_specifity(s[i]), sel_specifity(s[j]))
}

proof fn lemma_insert_desc_at(x: Selector, s: Seq<Selector>, p: int)
    requires
        0 <= p <= s.len(),
        forall|j: int| 0 <= j < p ==> !specifity_lt(sel_specifity(s[j]), sel_specifity(x)),
        p < s.len() ==> specifity_lt(sel_specifity(s[p]), sel_specifity(x)),
    ensures
        insert_desc(x, s) =~= s.insert(p, x),
    decreases s.len(),
{
    if s.len() == 0 {
    } else if p == 0 {
    } else {
        lemma_insert_desc_at(x, s.skip(1), p - 1);
        assert(insert_desc(x, s) =~= seq![s[0]] + insert_desc(x, s.skip(1)));
        assert(seq![s[0]] + s.skip(1).insert(p - 1, x) =~= s.insert(p, x));
    }
}

/// Inserting into a descending list keeps it descending.
proof fn lemma_insert_desc_sorted(x: Selector, s: Seq<Selector>)
    requires
        sorted_desc(s),
    ensures
        sorted_desc(insert_desc(x, s)),
        insert_desc(x, s).len() == s.len() + 1,
    decreases s.len(),
{
    if s.len() == 0 {
    } else if !specifity_lt(sel_specifity(s[0]), sel_specifity(x)) {
        assert(sorted_desc(s.skip(1)));
        lemma_insert_desc_sorted(x, s.skip(1));
        let r = seq![s[0]] + insert_desc(x, s.skip(1));
        let t = insert_desc(x, s.skip(1));
        assert forall|i: int, j: int|
            0 <= i < j < r.len() implies !specifity_lt(sel_specifity(r[i]), sel_specifity(r[j])) by {
            if i == 0 {
                assert(r[j] == t[j - 1]);
                lemma_insert_desc_member(x, s.skip(1), j - 1);
            }
        }
    } else {
        let r = seq![x] + s;
        assert forall|i: int, j: int|
            0 <= i < j < r.len() implies !specifity_lt(sel_specifity(r[i]), sel_specifity(r[j])) by {
            if i == 0 {
                assert(r[j] == s[j - 1]);
                if j - 1 > 0 {
                    assert(!specifity_lt(sel_specifity(s[0]), sel_specifity(s[j - 1])));
                }
            }
        }
    }
}

/// Every member of an inserted list is the new selector or one of the old
/// members, and a member that is not the new selector at a position after
/// the front keeps the front's bound.
proof fn lemma_insert_desc_member(x: Selector, s: Seq<Selector>, k: int)
    requires
        0 <= k < insert_desc(x, s).len(),
    ensures
        insert_desc(x, s)[k] == x || s.contains(insert_desc(x, s)[k]),
    decreases s.len(),
{
    if s.len() == 0 {
    } else if !specifity_lt(sel_specifity(s[0]), sel_specifity(x)) {
        if k > 0 {
            lemma_insert_desc_member(x, s.skip(1), k - 1);
            let v = insert_desc(x, s)[k];
            if v != x {
                assert(s.skip(1).contains(v));
                let m = choose|m: int| 0 <= m < s.skip(1).len() && s.skip(1)[m] == v;
                assert(s[m + 1] == v);
            }
        }
    } else {
        if k > 0 {
            assert(insert_desc(x, s)[k] == s[k - 1]);
        }
    }
}

/// Sorting yields a descending list.
pub proof fn lemma_sort_desc_sorted(s: Seq<Selector>)
    ensures
        sorted_desc(sort_desc(s)),
        sort_desc(s).len() == s.len(),
    decreases s.len(),
{
    if s.len() > 0 {
        lemma_sort_desc_sorted(s.drop_last());
        lemma_insert_desc_sorted(s.last(), sort_desc(s.drop_last()));
    }
}

/// Sorting keeps exactly the selectors it was given.
pub proof fn lemma_sort_desc_permutes(s: Seq<Selector>)
    ensures
        sort_desc(s).to_multiset() == s.to_multiset(),
    decreases s.len(),
{
    broadcast use vstd::seq_lib::group_to_multiset_ensures;

    if s.len() > 0 {
        lemma_sort_desc_permutes(s.drop_last());
        lemma_insert_desc_multiset(s.last(), sort_desc(s.drop_last()));
        assert(s =~= s.drop_last().push(s.last()));
        assert(s.drop_last().push(s.last()).to_multiset() == s.drop_last().to_multiset().insert(
            s.last(),
        ));
    }
}

proof fn lemma_insert_desc_multiset(x: Selector, s: Seq<Selector>)
    ensures
        insert_desc(x, s).to_multiset() == s.to_multiset().insert(x),
    decreases s.len(),
{
    broadcast use vstd::seq_lib::group_to_multiset_ensures;

    if s.len() == 0 {
        assert(insert_desc(x, s) =~= seq![x]);
        assert(seq![x] =~= Seq::<Selector>::empty().push(x));
        assert(s.to_multiset() =~= Seq::<Selector>::empty().to_multiset());
    } else if !specifity_lt(sel_specifity(s[0]), sel_specifity(x)) {
        lemma_insert_desc_multiset(x, s.skip(1));
        let t = insert_desc(x, s.skip(1));
        assert(insert_desc(x, s) =~= seq![s[0]] + t);
        assert((seq![s[0]] + t).to_multiset() == t.to_multiset().insert(s[0])) by {
            assert(seq![s[0]] + t =~= t.insert(0, s[0]));
        }
        assert(s.to_multiset() == s.skip(1).to_multiset().insert(s[0])) by {
            assert(s =~= s.skip(1).insert(0, s[0]));
        }
        assert(t.to_multiset().insert(s[0]) =~= s.skip(1).to_multiset().insert(x).insert(s[0]));
        assert(s.skip(1).to_multiset().insert(x).insert(s[0]) =~= s.skip(
            1,
        ).to_multiset().insert(s[0]).insert(x));
    } else {
        assert(insert_desc(x, s) =~= s.insert(0, x));
    }
}

/// A rule's selectors, sorted by descending specificity when built by
/// `new`; the cascade resolver's first-match walk relies on that order.
#[derive(Debug, Clone, PartialEq)]
pub struct SortedSelectors {
    pub selectors: Vec<Selector>,
}

impl SortedSelectors {
    /// Sorts the selectors by descending specificity; selectors of equal
    /// specificity keep the order they were given in.
    pub fn new(selectors: Vec<Selector>) -> (r: SortedSelectors)
        ensures
            r.selectors@ == sort_desc(selectors@),
            sorted_desc(r.selectors@),
    {
        let mut input = selectors;
        let ghost orig = input@;
        let input_len = input.len();
        proof {
            assert(orig.len() == input_len);
        }
        let mut out: Vec<Selector> = Vec::new();
        let mut k: usize = 0;
        proof {
            assert(orig.take(0) =~= Seq::<Selector>::empty());
            assert(input@ =~= orig.skip(0));
        }
        while input.len() > 0
            invariant
                k + input@.len() == orig.len(),
                orig.len() <= usize::MAX,
                input@ =~= orig.skip(k as int),
                out@ == sort_desc(orig.take(k as int)),
            decreases input@.len(),
        {
            let x = input.remove(0);
            proof {
                assert(x == orig[k as int]);
                assert(input@ =~= orig.skip(k as int + 1));
            }
            let key = x.specifity();
            let n = out.len();
            let mut p: usize = 0;
            let mut stop = false;
            while p < n && !stop
                invariant
                    0 <= p <= n,
                    n == out@.len(),
                    key == sel_specifity(x),
                    forall|j: int|
                        0 <= j < p ==> !specifity_lt(sel_specifity(out@[j]), sel_specifity(x)),
                    stop ==> p < n && specifity_lt(sel_specifity(out@[p as int]), sel_specifity(x)),
                decreases n - p + if stop { 0int } else { 1int },
            {
                if out[p].specifity().lt(&key) {
                    stop = true;
                } else {
                    p = p + 1;
                }
            }
            let ghost prev = out@;
            out.insert(p, x);
            proof {
                lemma_insert_desc_at(x, prev, p as int);
                let t = orig.take(k as int + 1);
                assert(t.drop_last() =~= orig.take(k as int));
                assert(t.last() == orig[k as int]);
                assert(out@ == insert_desc(x, sort_desc(orig.take(k as int))));
            }
            k = k + 1;
        }
        proof {
            assert(orig.take(k as int) =~= orig);
            lemma_sort_desc_sorted(orig);
        }
        SortedSelectors { selectors: out }
    }
}

/// A rule: sorted selectors and the declarations they apply.
#[derive(Debug, Clone, PartialEq)]
pub struct Rule {
    pub selectors: SortedSelectors,
    pub declarations: Vec<Declaration>,
}

/// The mathematical shape of a `Rule`.
pub ghost struct RuleM {
    pub selectors: Seq<SelectorM>,
    pub declarations: Seq<DeclarationM>,
}

impl View for Rule {
    type V = RuleM;

    open spec fn view(&self) -> RuleM {
        RuleM {
            selectors: self.selectors.selectors@.map_values(|s: Selector| s@),
            declarations: self.declarations@.map_values(|d: Declaration| d@),
        }
    }
}

/// An ordered list of rules.
#[derive(Debug, Clone, PartialEq)]
pub struct Stylesheet {
    pub rules: Vec<Rule>,
}

/// The mathematical shape of a `Stylesheet`.
pub ghost struct StylesheetM {
    pub rules: Seq<RuleM>,
}

impl View for Stylesheet {
    type V = StylesheetM;

    open spec fn view(&self) -> StylesheetM {
        StylesheetM { rules: self.rules@.map_values(|r: Rule| r@) }
    }
}

} // verus!
