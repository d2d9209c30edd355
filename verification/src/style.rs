//! The cascade resolver and the style tree: matching selectors against
//! elements, merging the declarations of every matching rule into one
//! property map per element, and mirroring the document tree with a tree
//! of resolved property maps.

use crate::css::spec_specifity;
use crate::css::specifity_lt;
use crate::css::Declaration;
use crate::css::Rule;
use crate::css::RuleM;
use crate::css::Selector;
use crate::css::SelectorM;
use crate::css::SimpleSelector;
use crate::css::SimpleSelectorM;
use crate::css::SortedSelectors;
use crate::css::Specifity;
use crate::css::Stylesheet;
use crate::css::StylesheetM;
use crate::css::Value;
use crate::css::ValueM;
use crate::dom::spec_attrs_get;
use crate::dom::spec_classes;
use crate::dom::spec_simple_name;
use crate::dom::ElementData;
use crate::dom::ElementDataM;
use crate::dom::Node;
use crate::dom::NodeM;
use crate::text::str_eq;
use vstd::prelude::*;

verus! {

broadcast use vstd::std_specs::vec::group_vec_axioms;

/// How an element participates in layout. `Gone` stands for the CSS
/// `none` keyword: the node and its whole subtree drop out of layout.
#[derive(Debug, Clone, Copy, PartialEq, Eq, Structural)]
pub enum Display {
    Inline,
    Block,
    Gone,
}

/// A resolved property map: the value a lookup finds, if any.
pub open spec fn spec_prop_get(m: Map<Seq<char>, ValueM>, k: Seq<char>) -> Option<ValueM> {
    if m.contains_key(k) {
        Some(m[k])
    } else {
        None
    }
}

/// A mapping from property name to resolved value. Entries are kept in
/// the order the cascade wrote them; the last entry for a name wins, so
/// the map reads exactly like the mathematical map it views to.
#[derive(Debug, Clone, PartialEq)]
pub struct PropertyMap {
    entries: Vec<(String, Value)>,
}

/// A synonym under the name the rest of the engine has long used.
pub type CssPropertyMap = PropertyMap;

/// A list of written entries as a mathematical map, the last entry for a
/// name winning.
pub open spec fn entries_map(s: Seq<(Seq<char>, ValueM)>) -> Map<Seq<char>, ValueM>
    decreases s.len(),
{
    if s.len() == 0 {
        Map::empty()
    } else {
        entries_map(s.drop_last()).insert(s.last().0, s.last().1)
    }
}

impl PropertyMap {
    /// The written entries, in order.
    pub closed spec fn seq_view(&self) -> Seq<(Seq<char>, ValueM)> {
        Seq::new(self.entries@.len(), |i: int| (self.entries@[i].0@, self.entries@[i].1@))
    }

    /// The mapping from property name to resolved value.
    pub open spec fn map_view(&self) -> Map<Seq<char>, ValueM> {
        entries_map(self.seq_view())
    }

    /// The empty map.
    pub fn new() -> (r: PropertyMap)
        ensures
            r.map_view() =~= Map::<Seq<char>, ValueM>::empty(),
    {
        let r = PropertyMap { entries: Vec::new() };
        proof {
            assert(r.seq_view() =~= Seq::<(Seq<char>, ValueM)>::empty());
        }
        r
    }

    /// Writes `value` under `name`, shadowing whatever the name held.
    pub fn insert(&mut self, name: String, value: Value)
        ensures
            final(self).map_view() =~= old(self).map_view().insert(name@, value@),
    {
        let ghost old_seq = self.seq_view();
        self.entries.push((name, value));
        proof {
            assert(self.seq_view() =~= old_seq.push((name@, value@)));
            assert(self.seq_view().drop_last() =~= old_seq);
        }
    }

    /// An equal map owned by the caller.
    pub fn duplicate(&self) -> (r: PropertyMap)
        ensures
            r.map_view() == self.map_view(),
    {
        let n = self.entries.len();
        let mut out: Vec<(String, Value)> = Vec::new();
        let mut i: usize = 0;
        while i < n
            invariant
                0 <= i <= n,
                n == self.entries@.len(),
                out@.len() == i,
                forall|j: int|
                    0 <= j < i ==> #[trigger] out@[j].0@ == self.seq_view()[j].0 && out@[j].1@
                        == self.seq_view()[j].1,
            decreases n - i,
        {
            let name = self.entries[i].0.clone();
            let value = self.entries[i].1.duplicate();
            out.push((name, value));
            i = i + 1;
        }
        let r = PropertyMap { entries: out };
        proof {
            assert forall|j: int| 0 <= j < n implies r.seq_view()[j] == self.seq_view()[j] by {
                assert(r.seq_view()[j] == (r.entries@[j].0@, r.entries@[j].1@));
            }
            assert(r.seq_view() =~= self.seq_view());
        }
        r
    }

    /// The value resolved for `name`, if any.
    pub fn value(&self, name: &str) -> (r: Option<&Value>)
        ensures
            match r {
                Some(v) => spec_prop_get(self.map_view(), name@) == Some(v@),
                None => spec_prop_get(self.map_view(), name@) is None,
            },
    {
        let mut i = self.entries.len();
        proof {
            assert(self.seq_view().take(self.entries@.len() as int) =~= self.seq_view());
        }
        while i > 0
            invariant
                0 <= i <= self.entries@.len(),
                spec_prop_get(self.map_view(), name@) == spec_prop_get(
                    entries_map(self.seq_view().take(i as int)),
                    name@,
                ),
            decreases i,
        {
            i = i - 1;
            proof {
                let t = self.seq_view().take(i + 1);
                assert(t.drop_last() =~= self.seq_view().take(i as int));
                assert(t.last() == self.seq_view()[i as int]);
            }
            if str_eq(self.entries[i].0.as_str(), name) {
                return Some(&self.entries[i].1);
            }
        }
        proof {
            assert(self.seq_view().take(0) =~= Seq::<(Seq<char>, ValueM)>::empty());
        }
        None
    }
}

/// A document node paired with its resolved properties and its styled
/// children; `name` carries the node's plain name for later dumps.
#[derive(Debug)]
pub struct StyledNode {
    pub name: String,
    pub css_specified_values: PropertyMap,
    pub children: Vec<StyledNode>,
}

/// The mathematical shape of a `StyledNode`.
pub ghost struct StyledNodeM {
    pub name: Seq<char>,
    pub props: Map<Seq<char>, ValueM>,
    pub children: Seq<StyledNodeM>,
}

/// The shape of a styled node.
pub open spec fn styled_view(s: StyledNode) -> StyledNodeM
    decreases s, 1int,
{
    StyledNodeM {
        name: s.name@,
        props: s.css_specified_values.map_view(),
        children: styled_seq_view(s.children, 0),
    }
}

/// The shapes of the styled nodes of a vector, from position `i` on.
pub open spec fn styled_seq_view(cs: Vec<StyledNode>, i: int) -> Seq<StyledNodeM>
    decreases cs, 0int, cs@.len() - i,
{
    if 0 <= i < cs@.len() {
        seq![styled_view(cs[i])] + styled_seq_view(cs, i + 1)
    } else {
        Seq::empty()
    }
}

/// A vector's styled shapes are the element-by-element shapes.
pub proof fn lemma_styled_seq_view_as_seq(cs: Vec<StyledNode>, i: int)
    requires
        0 <= i <= cs@.len(),
    ensures
        styled_seq_view(cs, i) =~= cs@.skip(i).map_values(|c: StyledNode| c@),
    decreases cs@.len() - i,
{
    if i < cs@.len() {
        lemma_styled_seq_view_as_seq(cs, i + 1);
        assert(styled_seq_view(cs, i) == seq![styled_view(cs[i])] + styled_seq_view(cs, i + 1));
        assert(cs@.skip(i).map_values(|c: StyledNode| c@) =~= seq![styled_view(cs[i])] + cs@.skip(
            i + 1,
        ).map_values(|c: StyledNode| c@)) by {
            assert(cs@.skip(i)[0] == cs@[i]);
        }
    } else {
        assert(cs@.skip(i).map_values(|c: StyledNode| c@).len() == 0);
    }
}

impl View for StyledNode {
    type V = StyledNodeM;

    open spec fn view(&self) -> StyledNodeM {
        styled_view(*self)
    }
}

/// The display classification a property map resolves to: the `display`
/// keyword decides; anything else, or nothing, is inline.
pub open spec fn spec_display(props: Map<Seq<char>, ValueM>) -> Display {
    match spec_prop_get(props, "display"@) {
        Some(ValueM::Keyword(s)) => if s == "block"@ {
            Display::Block
        } else if s == "none"@ {
            Display::Gone
        } else {
            Display::Inline
        },
        _ => Display::Inline,
    }
}

/// The value `lookup` resolves: the name, then the shorthand it falls
/// back to, then the caller's default.
pub open spec fn spec_lookup(
    props: Map<Seq<char>, ValueM>,
    name: Seq<char>,
    fallback: Seq<char>,
    default: ValueM,
) -> ValueM {
    match spec_prop_get(props, name) {
        Some(v) => v,
        None => match spec_prop_get(props, fallback) {
            Some(v) => v,
            None => default,
        },
    }
}

impl StyledNode {
    /// The value resolved for `name`, if any.
    pub fn value(&self, name: &str) -> (r: Option<&Value>)
        ensures
            match r {
                Some(v) => spec_prop_get(self@.props, name@) == Some(v@),
                None => spec_prop_get(self@.props, name@) is None,
            },
    {
        self.css_specified_values.value(name)
    }

    /// The value for `name`, falling back to the shorthand
    /// `fallback_name` and then to `default`.
    pub fn lookup<'a>(&'a self, name: &str, fallback_name: &str, default: &'a Value) -> (r:
        &'a Value)
        ensures
            r@ == spec_lookup(self@.props, name@, fallback_name@, default@),
    {
        match self.value(name) {
            Some(v) => v,
            None => match self.value(fallback_name) {
                Some(v) => v,
                None => default,
            },
        }
    }

    /// How this node participates in layout.
    pub fn display(&self) -> (r: Display)
        ensures
            r == spec_display(self@.props),
    {
        match self.value("display") {
            Some(v) => match v {
                Value::Keyword(s) => {
                    if str_eq(s.as_str(), "block") {
                        Display::Block
                    } else if str_eq(s.as_str(), "none") {
                        Display::Gone
                    } else {
                        Display::Inline
                    }
                },
                _ => Display::Inline,
            },
            None => Display::Inline,
        }
    }
}

/// Whether a simple selector matches an element: every present
/// constraint holds; absent constraints impose none, so the universal
/// selector matches everything.
pub open spec fn spec_matches_simple(e: ElementDataM, s: SimpleSelectorM) -> bool {
    &&& match s.tag_name {
        Some(t) => e.tag_name == t,
        None => true,
    }
    &&& match s.id {
        Some(id) => spec_attrs_get(e.attrs, "id"@) == Some(id),
        None => true,
    }
    &&& forall|c: Seq<char>| s.classes.contains(c) ==> spec_classes(e).contains(c)
}

/// Whether a selector matches an element.
pub open spec fn spec_matches(e: ElementDataM, s: SelectorM) -> bool {
    match s {
        SelectorM::Simple(ss) => spec_matches_simple(e, ss),
    }
}

/// Whether a simple selector matches an element.
pub fn matches_simple_selector(elem: &ElementData, selector: &SimpleSelector) -> (r: bool)
    ensures
        r == spec_matches_simple(elem@, selector@),
{
    match &selector.tag_name {
        Some(t) => {
            if !str_eq(t.as_str(), elem.tag_name.as_str()) {
                return false;
            }
        },
        None => {},
    }
    match &selector.id {
        Some(id) => {
            match elem.id() {
                Some(v) => {
                    if !str_eq(v.as_str(), id.as_str()) {
                        return false;
                    }
                },
                None => {
                    return false;
                },
            }
        },
        None => {},
    }
    let elem_classes = elem.classes();
    let r = selector.classes.subset_of(&elem_classes);
    proof {
        if r {
            assert forall|c: Seq<char>| selector@.classes.contains(c) implies spec_classes(
                elem@,
            ).contains(c) by {
                assert(selector.classes.set_view().contains(c));
            }
        } else {
            assert(!selector.classes.set_view().subset_of(elem_classes.set_view()));
            let c = choose|c: Seq<char>|
                selector.classes.set_view().contains(c) && !elem_classes.set_view().contains(c);
            assert(selector@.classes.contains(c));
            assert(!spec_classes(elem@).contains(c));
        }
    }
    r
}

/// Whether a selector matches an element.
pub fn matches(elem: &ElementData, selector: &Selector) -> (r: bool)
    ensures
        r == spec_matches(elem@, selector@),
{
    let Selector::Simple(simple_selector) = selector;
    matches_simple_selector(elem, simple_selector)
}

/// The first selector of a list that matches the element, if any; on a
/// list sorted by descending specificity that is the most specific match.
pub open spec fn spec_first_match(e: ElementDataM, sels: Seq<SelectorM>) -> Option<SelectorM>
    decreases sels.len(),
{
    if sels.len() == 0 {
        None
    } else if spec_matches(e, sels[0]) {
        Some(sels[0])
    } else {
        spec_first_match(e, sels.skip(1))
    }
}

/// The first selector of the sorted list that matches the element.
pub fn match_selectors<'a>(elem: &ElementData, sorted_selectors: &'a SortedSelectors) -> (r: Option<
    &'a Selector,
>)
    ensures
        match r {
            Some(s) => spec_first_match(
                elem@,
                sorted_selectors.selectors@.map_values(|s: Selector| s@),
            ) == Some(s@),
            None => spec_first_match(
                elem@,
                sorted_selectors.selectors@.map_values(|s: Selector| s@),
            ) is None,
        },
{
    let ghost sels = sorted_selectors.selectors@.map_values(|s: Selector| s@);
    let n = sorted_selectors.selectors.len();
    proof {
        assert(sels.skip(0) =~= sels);
    }
    let mut i: usize = 0;
    while i < n
        invariant
            0 <= i <= n,
            n == sorted_selectors.selectors@.len(),
            sels == sorted_selectors.selectors@.map_values(|s: Selector| s@),
            spec_first_match(elem@, sels) == spec_first_match(elem@, sels.skip(i as int)),
        decreases n - i,
    {
        proof {
            assert(sels.skip(i as int)[0] == sels[i as int]);
        }
        if matches(elem, &sorted_selectors.selectors[i]) {
            return Some(&sorted_selectors.selectors[i]);
        }
        proof {
            assert(sels.skip(i as int).skip(1) =~= sels.skip(i + 1));
        }
        i = i + 1;
    }
    proof {
        assert(sels.skip(n as int).len() == 0);
    }
    None
}


/// On a selector list sorted by descending specificity — the order
/// `SortedSelectors::new` establishes — the first matching selector is
/// a most specific matching selector, and a miss means nothing in the
/// list matches.
pub proof fn lemma_first_match_most_specific(e: ElementDataM, sels: Seq<SelectorM>)
    requires
        forall|i: int, j: int|
            0 <= i < j < sels.len() ==> !specifity_lt(
                spec_specifity(sels[i]),
                spec_specifity(sels[j]),
            ),
    ensures
        match spec_first_match(e, sels) {
            Some(s) => forall|j: int|
                0 <= j < sels.len() && spec_matches(e, sels[j]) ==> !specifity_lt(
                    spec_specifity(s),
                    spec_specifity(sels[j]),
                ),
            None => forall|j: int| 0 <= j < sels.len() ==> !spec_matches(e, sels[j]),
        },
    decreases sels.len(),
{
    if sels.len() == 0 {
    } else if spec_matches(e, sels[0]) {
        let s = sels[0];
        assert forall|j: int|
            0 <= j < sels.len() && spec_matches(e, sels[j]) implies !specifity_lt(
            spec_specifity(s),
            spec_specifity(sels[j]),
        ) by {
            if j > 0 {
                assert(!specifity_lt(spec_specifity(sels[0]), spec_specifity(sels[j])));
            }
        }
    } else {
        let rest = sels.skip(1);
        assert forall|i: int, j: int|
            0 <= i < j < rest.len() implies !specifity_lt(
            spec_specifity(rest[i]),
            spec_specifity(rest[j]),
        ) by {
            assert(rest[i] == sels[i + 1]);
            assert(rest[j] == sels[j + 1]);
        }
        lemma_first_match_most_specific(e, rest);
        match spec_first_match(e, sels) {
            Some(s) => {
                assert(spec_first_match(e, rest) == Some(s));
                assert forall|j: int|
                    0 <= j < sels.len() && spec_matches(e, sels[j]) implies !specifity_lt(
                    spec_specifity(s),
                    spec_specifity(sels[j]),
                ) by {
                    assert(j > 0);
                    assert(rest[j - 1] == sels[j]);
                }
            },
            None => {
                assert forall|j: int| 0 <= j < sels.len() implies !spec_matches(e, sels[j]) by {
                    if j > 0 {
                        assert(rest[j - 1] == sels[j]);
                    }
                }
            },
        }
    }
}

/// The specificity the rule matches the element with: that of the first
/// (most specific) of its selectors to match, if any.
pub open spec fn spec_match_rule(e: ElementDataM, rule: RuleM) -> Option<Specifity> {
    match spec_first_match(e, rule.selectors) {
        Some(s) => Some(spec_specifity(s)),
        None => None,
    }
}

/// Matches one rule against an element.
pub fn match_rule(elem: &ElementData, rule: &Rule) -> (r: Option<Specifity>)
    ensures
        r == spec_match_rule(elem@, rule@),
{
    match match_selectors(elem, &rule.selectors) {
        Some(selector) => Some(selector.specifity()),
        None => None,
    }
}

/// A matched rule: the specificity it matched with, and the rule's
/// position in the stylesheet.
pub type MatchedRule = (Specifity, usize);

/// The rules of a stylesheet that match the element, from position `i`
/// on, each paired with the specificity of its winning selector.
pub open spec fn spec_matching_rules(e: ElementDataM, rules: Seq<RuleM>, i: int) -> Seq<MatchedRule>
    decreases rules.len() - i,
{
    if 0 <= i < rules.len() {
        match spec_match_rule(e, rules[i]) {
            Some(sp) => seq![(sp, i as usize)] + spec_matching_rules(e, rules, i + 1),
            None => spec_matching_rules(e, rules, i + 1),
        }
    } else {
        Seq::empty()
    }
}

/// Every rule of the stylesheet that matches the element, in stylesheet
/// order, paired with the specificity of its winning selector.
pub fn matching_rules(elem: &ElementData, stylesheet: &Stylesheet) -> (r: Vec<MatchedRule>)
    ensures
        r@ == spec_matching_rules(elem@, stylesheet@.rules, 0),
{
    let ghost rules = stylesheet@.rules;
    let n = stylesheet.rules.len();
    let mut out: Vec<MatchedRule> = Vec::new();
    proof {
        assert(out@ + spec_matching_rules(elem@, rules, 0) =~= spec_matching_rules(
            elem@,
            rules,
            0,
        ));
    }
    let mut i: usize = 0;
    while i < n
        invariant
            0 <= i <= n,
            n == stylesheet.rules@.len(),
            rules == stylesheet@.rules,
            spec_matching_rules(elem@, rules, 0) =~= out@ + spec_matching_rules(
                elem@,
                rules,
                i as int,
            ),
        decreases n - i,
    {
        proof {
            assert(rules[i as int] == stylesheet.rules@[i as int]@);
        }
        match match_rule(elem, &stylesheet.rules[i]) {
            Some(sp) => {
                let ghost prev = out@;
                out.push((sp, i));
                proof {
                    assert(out@ =~= prev.push((sp, i)));
                    assert(prev + spec_matching_rules(elem@, rules, i as int) =~= out@
                        + spec_matching_rules(elem@, rules, i + 1));
                }
            },
            None => {},
        }
        i = i + 1;
    }
    proof {
        assert(spec_matching_rules(elem@, rules, n as int) =~= Seq::<MatchedRule>::empty());
        assert(out@ + Seq::<MatchedRule>::empty() =~= out@);
    }
    out
}

/// Where a matched rule lands when placed into an ascending list: after
/// every entry that does not rank strictly above it, so entries of equal
/// specificity keep their stylesheet order.
pub open spec fn insert_asc(x: MatchedRule, s: Seq<MatchedRule>) -> Seq<MatchedRule>
    decreases s.len(),
{
    if s.len() == 0 {
        seq![x]
    } else if !specifity_lt(x.0, s[0].0) {
        seq![s[0]] + insert_asc(x, s.skip(1))
    } else {
        seq![x] + s
    }
}

/// Insertion sort by ascending specificity, stable for entries of equal
/// specificity, so stylesheet order breaks ties.
pub open spec fn sort_asc(s: Seq<MatchedRule>) -> Seq<MatchedRule>
    decreases s.len(),
{
    if s.len() == 0 {
        Seq::empty()
    } else {
        insert_asc(s.last(), sort_asc(s.drop_last()))
    }
}

proof fn lemma_insert_asc_at(x: MatchedRule, s: Seq<MatchedRule>, p: int)
    requires
        0 <= p <= s.len(),
        forall|j: int| 0 <= j < p ==> !specifity_lt(x.0, s[j].0),
        p < s.len() ==> specifity_lt(x.0, s[p].0),
    ensures
        insert_asc(x, s) =~= s.insert(p, x),
    decreases s.len(),
{
    if s.len() == 0 {
    } else if p == 0 {
    } else {
        lemma_insert_asc_at(x, s.skip(1), p - 1);
        assert(insert_asc(x, s) =~= seq![s[0]] + insert_asc(x, s.skip(1)));
        assert(seq![s[0]] + s.skip(1).insert(p - 1, x) =~= s.insert(p, x));
    }
}

/// Sorts matched rules by ascending specificity, stable, so that later
/// writes win by precedence and, at equal precedence, by order.
fn sort_matched(matched: Vec<MatchedRule>) -> (r: Vec<MatchedRule>)
    ensures
        r@ == sort_asc(matched@),
{
    let mut input = matched;
    let ghost orig = input@;
    let input_len = input.len();
    proof {
        assert(orig.len() == input_len);
        assert(orig.take(0) =~= Seq::<MatchedRule>::empty());
        assert(input@ =~= orig.skip(0));
    }
    let mut out: Vec<MatchedRule> = Vec::new();
    let mut k: usize = 0;
    while input.len() > 0
        invariant
            k + input@.len() == orig.len(),
            orig.len() <= usize::MAX,
            input@ =~= orig.skip(k as int),
            out@ == sort_asc(orig.take(k as int)),
        decreases input@.len(),
    {
        let x = input.remove(0);
        proof {
            assert(x == orig[k as int]);
            assert(input@ =~= orig.skip(k as int + 1));
        }
        let n = out.len();
        let mut p: usize = 0;
        let mut stop = false;
        while p < n && !stop
            invariant
                0 <= p <= n,
                n == out@.len(),
                forall|j: int| 0 <= j < p ==> !specifity_lt(x.0, out@[j].0),
                stop ==> p < n && specifity_lt(x.0, out@[p as int].0),
            decreases n - p + if stop { 0int } else { 1int },
        {
            if x.0.lt(&out[p].0) {
                stop = true;
            } else {
                p = p + 1;
            }
        }
        let ghost prev = out@;
        out.insert(p, x);
        proof {
            lemma_insert_asc_at(x, prev, p as int);
            let t = orig.take(k as int + 1);
            assert(t.drop_last() =~= orig.take(k as int));
            assert(t.last() == orig[k as int]);
            assert(out@ == insert_asc(x, sort_asc(orig.take(k as int))));
        }
        k = k + 1;
    }
    proof {
        assert(orig.take(k as int) =~= orig);
    }
    out
}

/// A map after writing one rule's declarations in order, from position
/// `j` on, each shadowing what its name held.
pub open spec fn spec_apply_decls(
    m: Map<Seq<char>, ValueM>,
    decls: Seq<crate::css::DeclarationM>,
    j: int,
) -> Map<Seq<char>, ValueM>
    decreases decls.len() - j,
{
    if 0 <= j < decls.len() {
        spec_apply_decls(m.insert(decls[j].name, decls[j].value), decls, j + 1)
    } else {
        m
    }
}

/// A map after writing the declarations of the matched rules in order,
/// from position `t` of the matched list on.
pub open spec fn spec_apply_rules(
    m: Map<Seq<char>, ValueM>,
    rules: Seq<RuleM>,
    matched: Seq<MatchedRule>,
    t: int,
) -> Map<Seq<char>, ValueM>
    decreases matched.len() - t,
{
    if 0 <= t < matched.len() {
        let idx = matched[t].1 as int;
        let m2 = if 0 <= idx < rules.len() {
            spec_apply_decls(m, rules[idx].declarations, 0)
        } else {
            m
        };
        spec_apply_rules(m2, rules, matched, t + 1)
    } else {
        m
    }
}

/// The cascade's result for one element: every matching rule's
/// declarations, written from lowest to highest specificity, stylesheet
/// order breaking ties, later writes shadowing earlier ones.
pub open spec fn spec_specified_values(e: ElementDataM, sheet: StylesheetM) -> Map<
    Seq<char>,
    ValueM,
> {
    spec_apply_rules(
        Map::empty(),
        sheet.rules,
        sort_asc(spec_matching_rules(e, sheet.rules, 0)),
        0,
    )
}

/// Resolves the cascade for one element: finds the matching rules,
/// orders them by specificity (stable, so stylesheet order breaks
/// ties), and merges their declarations into one property map.
pub fn css_specified_values(elem: &ElementData, stylesheet: &Stylesheet) -> (r: PropertyMap)
    ensures
        r.map_view() == spec_specified_values(elem@, stylesheet@),
{
    let ghost rules = stylesheet@.rules;
    let matched = matching_rules(elem, stylesheet);
    let sorted = sort_matched(matched);
    let ghost sorted_seq = sorted@;
    let mut values = PropertyMap::new();
    let m = sorted.len();
    let mut t: usize = 0;
    while t < m
        invariant
            0 <= t <= m,
            m == sorted@.len(),
            sorted_seq == sorted@,
            rules == stylesheet@.rules,
            spec_apply_rules(values.map_view(), rules, sorted_seq, t as int) == spec_apply_rules(
                Map::empty(),
                rules,
                sorted_seq,
                0,
            ),
        decreases m - t,
    {
        let idx = sorted[t].1;
        if idx < stylesheet.rules.len() {
            let ghost before = values.map_view();
            let decls = &stylesheet.rules[idx].declarations;
            proof {
                assert(rules[idx as int] == stylesheet.rules@[idx as int]@);
                assert(rules[idx as int].declarations == decls@.map_values(
                    |d: Declaration| d@,
                ));
            }
            let ghost dseq = rules[idx as int].declarations;
            let dn = decls.len();
            let mut j: usize = 0;
            while j < dn
                invariant
                    0 <= j <= dn,
                    dn == decls@.len(),
                    dseq == decls@.map_values(|d: Declaration| d@),
                    spec_apply_decls(values.map_view(), dseq, j as int) == spec_apply_decls(
                        before,
                        dseq,
                        0,
                    ),
                decreases dn - j,
            {
                let d = &decls[j];
                proof {
                    assert(dseq[j as int] == d@);
                }
                values.insert(d.name.clone(), d.value.duplicate());
                j = j + 1;
            }
            proof {
                assert(spec_apply_decls(values.map_view(), dseq, dn as int) == values.map_view());
            }
        }
        t = t + 1;
    }
    proof {
        assert(spec_apply_rules(values.map_view(), rules, sorted_seq, m as int)
            == values.map_view());
    }
    values
}


/// Sorting a two-entry matched list: the lower specificity comes
/// first; entries of equal specificity keep their order.
proof fn lemma_sort_asc_pair(a: MatchedRule, b: MatchedRule)
    ensures
        sort_asc(seq![a, b]) =~= if specifity_lt(b.0, a.0) {
            seq![b, a]
        } else {
            seq![a, b]
        },
{
    let s = seq![a, b];
    let one = seq![a];
    let none = Seq::<MatchedRule>::empty();
    assert(s.last() == b);
    assert(s.drop_last() =~= one);
    assert(one.last() == a);
    assert(one.drop_last() =~= none);
    assert(sort_asc(none) == none);
    assert(sort_asc(one) == insert_asc(a, sort_asc(one.drop_last())));
    assert(sort_asc(one.drop_last()) == sort_asc(none));
    assert(insert_asc(a, none) =~= one);
    assert(sort_asc(one) =~= one);
    assert(sort_asc(s) == insert_asc(b, sort_asc(s.drop_last())));
    assert(sort_asc(s.drop_last()) == sort_asc(one));
    assert(sort_asc(s) == insert_asc(b, sort_asc(one)));
    assert(sort_asc(one) == one);
    assert(one[0] == a);
    if !specifity_lt(b.0, a.0) {
        assert(insert_asc(b, one) == seq![a] + insert_asc(b, one.skip(1)));
        assert(one.skip(1) =~= none);
        assert(insert_asc(b, one.skip(1)) == insert_asc(b, none));
        assert(insert_asc(b, none) =~= seq![b]);
        assert(seq![a] + seq![b] =~= seq![a, b]);
    } else {
        assert(insert_asc(b, one) == seq![b] + one);
        assert(seq![b] + one =~= seq![b, a]);
    }
}

/// Cascade precedence: when two rules both match an element and each
/// carries one declaration for the same property, the rule whose
/// winning selector has the higher specificity decides the resolved
/// value, in whichever order the stylesheet lists the two rules.
pub proof fn lemma_cascade_precedence(
    e: ElementDataM,
    r1: RuleM,
    r2: RuleM,
    p: Seq<char>,
    v1: ValueM,
    v2: ValueM,
)
    requires
        r1.declarations == seq![crate::css::DeclarationM { name: p, value: v1 }],
        r2.declarations == seq![crate::css::DeclarationM { name: p, value: v2 }],
        spec_match_rule(e, r1) is Some,
        spec_match_rule(e, r2) is Some,
        specifity_lt(spec_match_rule(e, r1)->0, spec_match_rule(e, r2)->0),
    ensures
        spec_prop_get(spec_specified_values(e, StylesheetM { rules: seq![r1, r2] }), p) == Some(
            v2,
        ),
        spec_prop_get(spec_specified_values(e, StylesheetM { rules: seq![r2, r1] }), p) == Some(
            v2,
        ),
{
    let s1 = spec_match_rule(e, r1)->0;
    let s2 = spec_match_rule(e, r2)->0;

    let rules_a = seq![r1, r2];
    assert(rules_a[0] == r1 && rules_a[1] == r2 && rules_a.len() == 2);
    let ma = spec_matching_rules(e, rules_a, 0);
    assert(spec_matching_rules(e, rules_a, 2) =~= Seq::<MatchedRule>::empty());
    assert(spec_matching_rules(e, rules_a, 1) =~= seq![(s2, 1usize)]);
    assert(ma =~= seq![(s1, 0usize), (s2, 1usize)]);
    lemma_sort_asc_pair((s1, 0usize), (s2, 1usize));
    assert(!specifity_lt(s2, s1));
    let sa = sort_asc(ma);
    assert(sa == sort_asc(seq![(s1, 0usize), (s2, 1usize)]));
    assert(sa =~= seq![(s1, 0usize), (s2, 1usize)]);
    lemma_two_rule_apply(rules_a, sa, r1, r2, p, v1, v2);

    let rules_b = seq![r2, r1];
    assert(rules_b[0] == r2 && rules_b[1] == r1 && rules_b.len() == 2);
    let mb = spec_matching_rules(e, rules_b, 0);
    assert(spec_matching_rules(e, rules_b, 2) =~= Seq::<MatchedRule>::empty());
    assert(spec_matching_rules(e, rules_b, 1) =~= seq![(s1, 1usize)]);
    assert(mb =~= seq![(s2, 0usize), (s1, 1usize)]);
    lemma_sort_asc_pair((s2, 0usize), (s1, 1usize));
    assert(specifity_lt(s1, s2));
    let sb = sort_asc(mb);
    assert(sb == sort_asc(seq![(s2, 0usize), (s1, 1usize)]));
    assert(sb =~= seq![(s1, 1usize), (s2, 0usize)]);
    lemma_two_rule_apply(rules_b, sb, r1, r2, p, v1, v2);
}

/// Applying a lower-precedence rule and then a higher one, each with a
/// single declaration for `p`, leaves the higher one's value.
proof fn lemma_two_rule_apply(
    rules: Seq<RuleM>,
    sorted: Seq<MatchedRule>,
    r1: RuleM,
    r2: RuleM,
    p: Seq<char>,
    v1: ValueM,
    v2: ValueM,
)
    requires
        r1.declarations == seq![crate::css::DeclarationM { name: p, value: v1 }],
        r2.declarations == seq![crate::css::DeclarationM { name: p, value: v2 }],
        rules.len() == 2,
        sorted.len() == 2,
        0 <= sorted[0].1 < 2 && 0 <= sorted[1].1 < 2,
        rules[sorted[0].1 as int] == r1,
        rules[sorted[1].1 as int] == r2,
    ensures
        spec_prop_get(spec_apply_rules(Map::empty(), rules, sorted, 0), p) == Some(v2),
{
    let m0 = Map::<Seq<char>, ValueM>::empty();
    let m1 = spec_apply_decls(m0, r1.declarations, 0);
    assert(r1.declarations[0] == crate::css::DeclarationM { name: p, value: v1 });
    assert(m1 == spec_apply_decls(m0.insert(p, v1), r1.declarations, 1));
    assert(m1 == m0.insert(p, v1));
    let m2 = spec_apply_decls(m1, r2.declarations, 0);
    assert(r2.declarations[0] == crate::css::DeclarationM { name: p, value: v2 });
    assert(m2 == spec_apply_decls(m1.insert(p, v2), r2.declarations, 1));
    assert(m2 == m1.insert(p, v2));
    assert(spec_apply_rules(m2, rules, sorted, 2) == m2);
    assert(spec_apply_rules(m1, rules, sorted, 1) == spec_apply_rules(m2, rules, sorted, 2));
    assert(spec_apply_rules(m0, rules, sorted, 0) == spec_apply_rules(m1, rules, sorted, 1));
    assert(m2[p] == v2);
}

/// The styled shape of a document node under a stylesheet: its plain
/// name, the cascade's result (text gets an empty map), and its styled
/// children in order.
pub open spec fn spec_style_tree(n: NodeM, sheet: StylesheetM) -> StyledNodeM
    decreases n, 1int,
{
    StyledNodeM {
        name: spec_simple_name(n),
        props: match n {
            NodeM::Element(d) => spec_specified_values(d, sheet),
            NodeM::Text(_) => Map::empty(),
        },
        children: match n {
            NodeM::Element(d) => spec_style_seq(d.children, sheet, 0),
            NodeM::Text(_) => Seq::empty(),
        },
    }
}

/// The styled shapes of sibling nodes, from position `i` on.
pub open spec fn spec_style_seq(cs: Seq<NodeM>, sheet: StylesheetM, i: int) -> Seq<StyledNodeM>
    decreases cs, 0int, cs.len() - i,
{
    if 0 <= i < cs.len() {
        seq![spec_style_tree(cs[i], sheet)] + spec_style_seq(cs, sheet, i + 1)
    } else {
        Seq::empty()
    }
}

/// Sibling styled shapes line up with their positions.
pub proof fn lemma_spec_style_seq_index(cs: Seq<NodeM>, sheet: StylesheetM, i: int, j: int)
    requires
        0 <= i <= j < cs.len(),
    ensures
        spec_style_seq(cs, sheet, i).len() == cs.len() - i,
        spec_style_seq(cs, sheet, i)[j - i] == spec_style_tree(cs[j], sheet),
    decreases cs.len() - i,
{
    if i < cs.len() {
        assert(spec_style_seq(cs, sheet, i) == seq![spec_style_tree(cs[i], sheet)]
            + spec_style_seq(cs, sheet, i + 1));
        if j > i {
            lemma_spec_style_seq_index(cs, sheet, i + 1, j);
        } else {
            if i + 1 < cs.len() {
                lemma_spec_style_seq_index(cs, sheet, i + 1, i + 1);
            } else {
                assert(spec_style_seq(cs, sheet, i + 1) =~= Seq::empty());
            }
        }
    }
}

/// Builds the style tree: resolves the cascade for every element,
/// top-down, preserving child order; text nodes get an empty map.
pub fn style_tree(root: &Node, stylesheet: &Stylesheet) -> (r: StyledNode)
    ensures
        r@ == spec_style_tree(root@, stylesheet@),
    decreases root@,
{
    match root {
        Node::Text(s) => {
            let r = StyledNode {
                name: s.clone(),
                css_specified_values: PropertyMap::new(),
                children: Vec::new(),
            };
            proof {
                assert(styled_seq_view(r.children, 0) =~= Seq::<StyledNodeM>::empty());
            }
            r
        },
        Node::Element(d) => {
            let props = css_specified_values(d, stylesheet);
            let ghost srcs = crate::dom::nodes_view(d.children, 0);
            proof {
                assert(root@ == NodeM::Element(d@));
                crate::dom::lemma_nodes_view_as_seq(d.children, 0);
                assert(srcs.len() == d.children@.len());
            }
            let n = d.children.len();
            let mut children: Vec<StyledNode> = Vec::new();
            let mut i: usize = 0;
            while i < n
                invariant
                    0 <= i <= n,
                    n == d.children@.len(),
                    root@ == NodeM::Element(d@),
                    srcs == crate::dom::nodes_view(d.children, 0),
                    srcs.len() == n,
                    children@.len() == i,
                    forall|j: int|
                        0 <= j < i ==> #[trigger] children@[j]@ == spec_style_tree(
                            srcs[j],
                            stylesheet@,
                        ),
                decreases n - i,
            {
                proof {
                    crate::dom::lemma_nodes_view_index(d.children, 0, i as int);
                    assert(root@ == NodeM::Element(d@));
                    assert(decreases_to!(root@ => root@->Element_0));
                    assert(root@->Element_0 == d@);
                    assert(decreases_to!(d@ => d@.children));
                    assert(decreases_to!(d@.children => d@.children[i as int]));
                    assert(d.children@[i as int]@ == d@.children[i as int]);
                }
                let c = style_tree(&d.children[i], stylesheet);
                children.push(c);
                i = i + 1;
            }
            let r = StyledNode {
                name: d.tag_name.clone(),
                css_specified_values: props,
                children,
            };
            proof {
                lemma_styled_seq_view_as_seq(r.children, 0);
                let lhs = styled_seq_view(r.children, 0);
                let rhs = spec_style_seq(srcs, stylesheet@, 0);
                assert forall|j: int| 0 <= j < n implies lhs[j] == rhs[j] by {
                    lemma_spec_style_seq_index(srcs, stylesheet@, 0, j);
                }
                if n > 0 {
                    lemma_spec_style_seq_index(srcs, stylesheet@, 0, 0);
                } else {
                    assert(rhs =~= Seq::<StyledNodeM>::empty());
                }
                assert(lhs =~= rhs);
            }
            r
        },
    }
}

} // verus!
