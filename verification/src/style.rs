//! Selector matching and the cascade resolver.
//!
//! Matching is a single-element structural test.  The resolver collects,
//! per element, the rules whose selector lists match it, sorts them
//! ascending by the specificity of the matched selector (stably, so that
//! source order breaks ties), folds their declarations into a property
//! map, and lets an inline `style` attribute overwrite the result.

use vstd::prelude::*;
use crate::css::CssError;
use crate::css::CssErrorKind;
use crate::css::DeclarationView;
use crate::css::Rule;
use crate::css::RuleView;
use crate::css::Selector;
use crate::css::SelectorView;
use crate::css::SimpleSelector;
use crate::css::Specificity;
use crate::css::StyleSheet;
use crate::css::Value;
use crate::css::ValueView;
use crate::css::spec_specificity;
use crate::css::spec_triple_le;
use crate::css::spec_triple_of;
use crate::css::specificity_le;
use crate::css::str_views;
use crate::dom::ElemView;
use crate::dom::ElementData;
use crate::dom::Node;
use crate::dom::NodeType;
use crate::dom::NodeTypeView;
use crate::dom::NodeView;
use crate::dom::id_key;
use crate::dom::spec_attr;
use crate::dom::spec_classes;
use crate::strmap::StrMap;
use crate::strmap::assoc_set;

verus! {

/// The resolved properties of one element: property name to value.
pub type PropertyMap = StrMap<Value>;

/// Whether a selector matches an element: every present constraint must
/// hold — equal tag name, equal id, and every selector class a member of
/// the element's derived class set.
pub open spec fn spec_matches(e: ElemView, sel: SelectorView) -> bool {
    &&& match sel.tag_name {
        Option::Some(t) => e.tag_name == t,
        Option::None => true,
    }
    &&& match sel.id {
        Option::Some(id) => spec_attr(e, id_key()) == Option::Some(id),
        Option::None => true,
    }
    &&& forall|j: int|
        0 <= j < sel.class.len() ==> spec_classes(e).contains(sel.class[j])
}

/// Decides `spec_matches` for a simple selector.
pub fn matches_simple_selector(elem: &ElementData, selector: &SimpleSelector) -> (r: bool)
    ensures
        r == spec_matches(elem@, selector@),
{
    let tag_ok = match &selector.tag_name {
        Some(name) => elem.tag_name.eq(name),
        None => true,
    };
    if !tag_ok {
        return false;
    }
    let id_ok = match &selector.id {
        Some(id) => match elem.id() {
            Some(eid) => eid.eq(id),
            None => false,
        },
        None => true,
    };
    if !id_ok {
        return false;
    }
    let elem_classes = elem.classes();
    let n = selector.class.len();
    let mut i: usize = 0;
    loop
        invariant
            0 <= i <= n,
            n == selector.class@.len(),
            str_views(elem_classes@) == spec_classes(elem@),
            forall|m: int|
                0 <= m < i ==> spec_classes(elem@).contains(selector@.class[m]),
        ensures
            i == n,
            forall|m: int|
                0 <= m < n ==> spec_classes(elem@).contains(selector@.class[m]),
        decreases n - i,
    {
        if i >= n {
            break;
        }
        let cls = &selector.class[i];
        proof {
            assert(selector@.class[i as int] == selector.class@[i as int]@);
        }
        let k = elem_classes.len();
        let mut j: usize = 0;
        let mut found = false;
        loop
            invariant
                0 <= j <= k,
                k == elem_classes@.len(),
                str_views(elem_classes@) == spec_classes(elem@),
                !found ==> forall|m: int|
                    0 <= m < j ==> spec_classes(elem@)[m] != cls@,
                found ==> spec_classes(elem@).contains(cls@),
            ensures
                found == spec_classes(elem@).contains(cls@),
            decreases k - j,
        {
            if j >= k {
                proof {
                    if !found {
                        assert(forall|m: int|
                            0 <= m < spec_classes(elem@).len() ==> spec_classes(elem@)[m]
                                != cls@);
                    }
                }
                break;
            }
            if elem_classes[j].eq(cls) {
                found = true;
                proof {
                    assert(spec_classes(elem@)[j as int] == cls@);
                }
                break;
            }
            j = j + 1;
        }
        if !found {
            return false;
        }
        i = i + 1;
    }
    true
}

/// Decides `spec_matches` for a selector of any kind.
pub fn matches(elem: &ElementData, selector: &Selector) -> (r: bool)
    ensures
        r == spec_matches(elem@, selector@),
{
    match selector {
        Selector::Simple(simple) => matches_simple_selector(elem, simple),
    }
}

/// The specificity of the first selector of `sels` that matches `e`, if
/// any does.  On a list sorted descending by specificity this is the
/// highest matching specificity.
pub open spec fn spec_first_match(e: ElemView, sels: Seq<SelectorView>) -> Option<(int, int, int)>
    decreases sels.len(),
{
    if sels.len() == 0 {
        Option::None
    } else if spec_matches(e, sels[0]) {
        Option::Some(spec_specificity(sels[0]))
    } else {
        spec_first_match(e, sels.drop_first())
    }
}

/// What a rule contributes for an element: the specificity of its first
/// matching selector, or nothing.
pub open spec fn spec_match_rule(e: ElemView, r: RuleView) -> Option<(int, int, int)> {
    spec_first_match(e, r.selectors)
}

/// Finds the first selector of the rule that matches the element and
/// returns its specificity with the rule.
pub fn match_rule<'a>(elem: &ElementData, rule: &'a Rule) -> (r: Option<(Specificity, &'a Rule)>)
    ensures
        match r {
            Option::Some((s, rr)) => spec_match_rule(elem@, rule@) == Option::Some(
                spec_triple_of(s),
            ) && rr == rule,
            Option::None => spec_match_rule(elem@, rule@) is None,
        },
{
    let ghost sels = rule@.selectors;
    let n = rule.selectors.len();
    let mut i: usize = 0;
    proof {
        assert(sels.skip(0) =~= sels);
    }
    loop
        invariant
            0 <= i <= n,
            n == rule.selectors@.len(),
            sels == rule@.selectors,
            spec_first_match(elem@, sels) == spec_first_match(elem@, sels.skip(i as int)),
        ensures
            0 <= i <= n,
            i < n ==> spec_first_match(elem@, sels) == Option::Some(
                spec_specificity(sels[i as int]),
            ),
            i == n ==> spec_first_match(elem@, sels) is None,
        decreases n - i,
    {
        if i >= n {
            proof {
                assert(sels.skip(i as int) =~= Seq::<SelectorView>::empty());
            }
            break;
        }
        proof {
            assert(sels.skip(i as int)[0] == sels[i as int]);
            assert(sels.skip(i as int).drop_first() =~= sels.skip(i as int + 1));
        }
        if matches(elem, &rule.selectors[i]) {
            break;
        }
        i = i + 1;
    }
    if i < n {
        Some((rule.selectors[i].specificity(), rule))
    } else {
        None
    }
}

/// On a selector list sorted descending by specificity, the first match
/// is a highest match: the result is the specificity of some matching
/// selector, every matching selector ranks at or below it, and there is
/// no result exactly when nothing matches.
pub proof fn lemma_first_match_is_max(e: ElemView, sels: Seq<SelectorView>)
    requires
        crate::css::spec_sorted_desc(sels),
    ensures
        match spec_first_match(e, sels) {
            Option::Some(t) => (exists|i: int|
                0 <= i < sels.len() && spec_matches(e, sels[i]) && spec_specificity(sels[i])
                    == t) && forall|i: int|
                0 <= i < sels.len() && spec_matches(e, sels[i]) ==> spec_triple_le(
                    spec_specificity(sels[i]),
                    t,
                ),
            Option::None => forall|i: int| 0 <= i < sels.len() ==> !spec_matches(e, sels[i]),
        },
    decreases sels.len(),
{
    if sels.len() > 0 && !spec_matches(e, sels[0]) {
        let rest = sels.drop_first();
        assert(crate::css::spec_sorted_desc(rest)) by {
            assert(forall|i: int, j: int|
                0 <= i < j < rest.len() ==> spec_triple_le(
                    spec_specificity(rest[j]),
                    spec_specificity(rest[i]),
                ));
        }
        lemma_first_match_is_max(e, rest);
        match spec_first_match(e, sels) {
            Option::Some(t) => {
                let w = choose|i: int|
                    0 <= i < rest.len() && spec_matches(e, rest[i]) && spec_specificity(
                        rest[i],
                    ) == t;
                assert(sels[w + 1] == rest[w]);
                assert forall|i: int|
                    0 <= i < sels.len() && spec_matches(e, sels[i]) implies spec_triple_le(
                    spec_specificity(sels[i]),
                    t,
                ) by {
                    assert(sels[i] == rest[i - 1]);
                }
            },
            Option::None => {
                assert forall|i: int| 0 <= i < sels.len() implies !spec_matches(
                    e,
                    sels[i],
                ) by {
                    if i > 0 {
                        assert(sels[i] == rest[i - 1]);
                    }
                }
            },
        }
    }
}

/// Two selector lists sorted descending and holding the same selectors
/// with the same multiplicities yield the same match result against
/// every element.
pub proof fn lemma_first_match_multiset(e: ElemView, t1: Seq<SelectorView>, t2: Seq<SelectorView>)
    requires
        crate::css::spec_sorted_desc(t1),
        crate::css::spec_sorted_desc(t2),
        t1.to_multiset() == t2.to_multiset(),
    ensures
        spec_first_match(e, t1) == spec_first_match(e, t2),
{
    broadcast use vstd::seq_lib::group_to_multiset_ensures;

    lemma_first_match_is_max(e, t1);
    lemma_first_match_is_max(e, t2);
    assert forall|y: SelectorView| t1.contains(y) implies t2.contains(y) by {
        assert(t1.to_multiset().count(y) > 0);
    }
    assert forall|y: SelectorView| t2.contains(y) implies t1.contains(y) by {
        assert(t2.to_multiset().count(y) > 0);
    }
    match spec_first_match(e, t1) {
        Option::Some(a) => {
            let w1 = choose|i: int|
                0 <= i < t1.len() && spec_matches(e, t1[i]) && spec_specificity(t1[i]) == a;
            assert(t1.contains(t1[w1]));
            assert(t2.contains(t1[w1]));
            match spec_first_match(e, t2) {
                Option::Some(b) => {
                    let w2 = choose|i: int|
                        0 <= i < t2.len() && spec_matches(e, t2[i]) && spec_specificity(
                            t2[i],
                        ) == b;
                    assert(t2.contains(t2[w2]));
                    assert(t1.contains(t2[w2]));
                    let u1 = choose|i: int| 0 <= i < t2.len() && t2[i] == t1[w1];
                    assert(spec_triple_le(a, b));
                    let u2 = choose|i: int| 0 <= i < t1.len() && t1[i] == t2[w2];
                    assert(spec_triple_le(b, a));
                },
                Option::None => {
                    let u1 = choose|i: int| 0 <= i < t2.len() && t2[i] == t1[w1];
                    assert(spec_matches(e, t2[u1]));
                },
            }
        },
        Option::None => {
            match spec_first_match(e, t2) {
                Option::Some(b) => {
                    let w2 = choose|i: int|
                        0 <= i < t2.len() && spec_matches(e, t2[i]) && spec_specificity(
                            t2[i],
                        ) == b;
                    assert(t1.contains(t2[w2]));
                    let u2 = choose|i: int| 0 <= i < t1.len() && t1[i] == t2[w2];
                    assert(spec_matches(e, t1[u2]));
                },
                Option::None => {},
            }
        },
    }
}

/// Selector-list order independence at the match level: two selector
/// lists holding the same selectors, in any order, yield the same match
/// result against every element once each is sorted as parsing sorts it.
pub proof fn lemma_selector_order_independent(
    e: ElemView,
    s1: Seq<SelectorView>,
    s2: Seq<SelectorView>,
)
    requires
        s1.to_multiset() == s2.to_multiset(),
    ensures
        spec_first_match(e, crate::css::spec_sort_desc(s1)) == spec_first_match(
            e,
            crate::css::spec_sort_desc(s2),
        ),
{
    crate::css::lemma_sort_desc_multiset(s1);
    crate::css::lemma_sort_desc_multiset(s2);
    crate::css::lemma_sort_desc_sorted(s1);
    crate::css::lemma_sort_desc_sorted(s2);
    lemma_first_match_multiset(e, crate::css::spec_sort_desc(s1), crate::css::spec_sort_desc(s2));
}

/// The views of matched rules.
pub open spec fn match_views(v: Seq<(Specificity, &Rule)>) -> Seq<((int, int, int), RuleView)> {
    v.map_values(|m: (Specificity, &Rule)| (spec_triple_of(m.0), m.1@))
}

/// The rules of the stylesheet that match the element, in source order,
/// each with the specificity of its first (hence highest) matching
/// selector.
pub open spec fn spec_matching_rules(e: ElemView, rules: Seq<RuleView>) -> Seq<
    ((int, int, int), RuleView),
>
    decreases rules.len(),
{
    if rules.len() == 0 {
        Seq::empty()
    } else {
        let front = spec_matching_rules(e, rules.drop_last());
        match spec_match_rule(e, rules.last()) {
            Option::Some(t) => front.push((t, rules.last())),
            Option::None => front,
        }
    }
}

/// Collects the matching rules of the stylesheet, in source order.
pub fn matching_rules<'a>(elem: &ElementData, stylesheet: &'a StyleSheet) -> (r: Vec<
    (Specificity, &'a Rule),
>)
    ensures
        match_views(r@) == spec_matching_rules(elem@, stylesheet@),
{
    let n = stylesheet.rules.len();
    let mut out: Vec<(Specificity, &'a Rule)> = Vec::new();
    let mut i: usize = 0;
    proof {
        assert(match_views(out@) =~= spec_matching_rules(elem@, stylesheet@.take(0)));
    }
    loop
        invariant
            0 <= i <= n,
            n == stylesheet.rules@.len(),
            match_views(out@) == spec_matching_rules(elem@, stylesheet@.take(i as int)),
        ensures
            match_views(out@) == spec_matching_rules(elem@, stylesheet@),
        decreases n - i,
    {
        if i >= n {
            proof {
                assert(stylesheet@.take(n as int) =~= stylesheet@);
            }
            break;
        }
        let ghost out0 = out@;
        proof {
            assert(stylesheet@.take(i as int + 1).drop_last() =~= stylesheet@.take(i as int));
            assert(stylesheet@.take(i as int + 1).last() == stylesheet@[i as int]);
        }
        match match_rule(elem, &stylesheet.rules[i]) {
            Some(m) => {
                out.push(m);
                proof {
                    assert(match_views(out@) =~= match_views(out0).push(
                        (spec_triple_of(m.0), m.1@),
                    ));
                }
            },
            None => {},
        }
        i = i + 1;
    }
    out
}

// ---------------------------------------------------------------------------
// Sorting matched rules by ascending specificity
// ---------------------------------------------------------------------------

/// Inserts a matched rule after every one of specificity at most its own:
/// the inner step of a stable insertion sort, ascending.
pub open spec fn spec_insert_asc(
    s: Seq<((int, int, int), RuleView)>,
    x: ((int, int, int), RuleView),
) -> Seq<((int, int, int), RuleView)>
    decreases s.len(),
{
    if s.len() == 0 {
        seq![x]
    } else if spec_triple_le(s[0].0, x.0) {
        seq![s[0]] + spec_insert_asc(s.drop_first(), x)
    } else {
        seq![x] + s
    }
}

/// A stable insertion sort by ascending specificity: ties keep their
/// source order, so among rules of equal specificity the later one wins
/// the cascade.
pub open spec fn spec_sort_asc(s: Seq<((int, int, int), RuleView)>) -> Seq<
    ((int, int, int), RuleView),
>
    decreases s.len(),
{
    if s.len() == 0 {
        Seq::empty()
    } else {
        spec_insert_asc(spec_sort_asc(s.drop_last()), s.last())
    }
}

/// Where the scan of an insertion stopped, the inserted element splits
/// the sequence there.
proof fn lemma_insert_asc_at(
    s: Seq<((int, int, int), RuleView)>,
    x: ((int, int, int), RuleView),
    i: int,
)
    requires
        0 <= i <= s.len(),
        forall|m: int| 0 <= m < i ==> spec_triple_le(s[m].0, x.0),
        i < s.len() ==> !spec_triple_le(s[i].0, x.0),
    ensures
        spec_insert_asc(s, x) == s.subrange(0, i) + seq![x] + s.subrange(i, s.len() as int),
    decreases i,
{
    if i == 0 {
        assert(spec_insert_asc(s, x) =~= s.subrange(0, 0) + seq![x] + s.subrange(
            0,
            s.len() as int,
        ));
    } else {
        lemma_insert_asc_at(s.drop_first(), x, i - 1);
        assert(spec_insert_asc(s, x) =~= s.subrange(0, i) + seq![x] + s.subrange(
            i,
            s.len() as int,
        ));
    }
}

/// Inserts one matched rule into an already sorted vector, in place.
fn insert_matched_asc<'a>(v: &mut Vec<(Specificity, &'a Rule)>, x: (Specificity, &'a Rule))
    ensures
        match_views(final(v)@) == spec_insert_asc(match_views(old(v)@), (
            spec_triple_of(x.0),
            x.1@,
        )),
{
    let ghost s = match_views(v@);
    let ghost xv = (spec_triple_of(x.0), x.1@);
    let mut i: usize = 0;
    loop
        invariant
            0 <= i <= v@.len(),
            match_views(v@) == s,
            s.len() == v@.len(),
            xv == (spec_triple_of(x.0), x.1@),
            forall|m: int| 0 <= m < i ==> spec_triple_le(s[m].0, xv.0),
        ensures
            0 <= i <= v@.len(),
            match_views(v@) == s,
            forall|m: int| 0 <= m < i ==> spec_triple_le(s[m].0, xv.0),
            i < v@.len() ==> !spec_triple_le(s[i as int].0, xv.0),
        decreases v@.len() - i,
    {
        if i >= v.len() {
            break;
        }
        proof {
            assert(match_views(v@)[i as int] == (spec_triple_of(v@[i as int].0), v@[
                i as int
            ].1@));
            assert(s[i as int].0 == spec_triple_of(v@[i as int].0));
        }
        let vs = v[i].0;
        proof {
            assert(vs == v@[i as int].0);
            assert(spec_triple_of(vs) == s[i as int].0);
        }
        if !specificity_le(vs, x.0) {
            proof {
                assert(!spec_triple_le(s[i as int].0, xv.0));
            }
            break;
        }
        proof {
            assert(spec_triple_le(s[i as int].0, xv.0));
        }
        i = i + 1;
    }
    proof {
        lemma_insert_asc_at(s, xv, i as int);
    }
    v.insert(i, x);
    proof {
        assert(match_views(v@) =~= s.subrange(0, i as int) + seq![xv] + s.subrange(
            i as int,
            s.len() as int,
        ));
    }
}

/// Sorts matched rules ascending by specificity, stably.
fn sort_matched<'a>(v: Vec<(Specificity, &'a Rule)>) -> (r: Vec<(Specificity, &'a Rule)>)
    ensures
        match_views(r@) == spec_sort_asc(match_views(v@)),
    decreases v@.len(),
{
    let mut v = v;
    if v.len() == 0 {
        proof {
            assert(match_views(v@) =~= Seq::<((int, int, int), RuleView)>::empty());
        }
        v
    } else {
        let ghost whole = v@;
        let x = v.pop().unwrap();
        proof {
            assert(v@ =~= whole.drop_last());
            assert(match_views(whole).drop_last() =~= match_views(whole.drop_last()));
            assert((spec_triple_of(x.0), x.1@) == match_views(whole).last());
        }
        let mut sorted = sort_matched(v);
        insert_matched_asc(&mut sorted, x);
        sorted
    }
}

// ---------------------------------------------------------------------------
// The cascade fold
// ---------------------------------------------------------------------------

/// Folds declarations into property entries, in order; each declaration
/// overwrites any earlier value of its property.
pub open spec fn spec_apply_declarations(
    m: Seq<(Seq<char>, ValueView)>,
    decls: Seq<DeclarationView>,
) -> Seq<(Seq<char>, ValueView)>
    decreases decls.len(),
{
    if decls.len() == 0 {
        m
    } else {
        assoc_set(
            spec_apply_declarations(m, decls.drop_last()),
            decls.last().name,
            decls.last().value,
        )
    }
}

/// Folds the declarations of matched rules into property entries, rule by
/// rule in the given order.
pub open spec fn spec_apply_rules(
    m: Seq<(Seq<char>, ValueView)>,
    matched: Seq<((int, int, int), RuleView)>,
) -> Seq<(Seq<char>, ValueView)>
    decreases matched.len(),
{
    if matched.len() == 0 {
        m
    } else {
        spec_apply_declarations(
            spec_apply_rules(m, matched.drop_last()),
            matched.last().1.declarations,
        )
    }
}

/// The specified values of an element under a stylesheet: the matching
/// rules, sorted ascending by specificity with source order breaking
/// ties, folded declaration by declaration.  Higher specificity wins;
/// among equals, the later rule wins.
pub open spec fn spec_specified_values(e: ElemView, sheet: Seq<RuleView>) -> Seq<
    (Seq<char>, ValueView),
> {
    spec_apply_rules(Seq::empty(), spec_sort_asc(spec_matching_rules(e, sheet)))
}

/// Two matched-rule sequences that agree on specificities and on
/// declarations, position by position.  The cascade reads nothing else
/// of a matched rule.
pub open spec fn matched_equiv(
    a: Seq<((int, int, int), RuleView)>,
    b: Seq<((int, int, int), RuleView)>,
) -> bool {
    a.len() == b.len() && forall|i: int|
        #![trigger a[i], b[i]]
        0 <= i < a.len() ==> a[i].0 == b[i].0 && a[i].1.declarations == b[i].1.declarations
}

/// Insertion sends equivalent inputs to equivalent outputs.
proof fn lemma_insert_asc_equiv(
    a: Seq<((int, int, int), RuleView)>,
    b: Seq<((int, int, int), RuleView)>,
    x: ((int, int, int), RuleView),
    y: ((int, int, int), RuleView),
)
    requires
        matched_equiv(a, b),
        x.0 == y.0,
        x.1.declarations == y.1.declarations,
    ensures
        matched_equiv(spec_insert_asc(a, x), spec_insert_asc(b, y)),
    decreases a.len(),
{
    let ta = spec_insert_asc(a, x);
    let tb = spec_insert_asc(b, y);
    if a.len() == 0 {
        assert(matched_equiv(ta, tb));
    } else if spec_triple_le(a[0].0, x.0) {
        assert(matched_equiv(a.drop_first(), b.drop_first())) by {
            assert(forall|i: int|
                0 <= i < a.drop_first().len() ==> #[trigger] a.drop_first()[i] == a[i + 1]
                    && b.drop_first()[i] == b[i + 1]);
        }
        lemma_insert_asc_equiv(a.drop_first(), b.drop_first(), x, y);
        let ra = spec_insert_asc(a.drop_first(), x);
        let rb = spec_insert_asc(b.drop_first(), y);
        assert(ta == seq![a[0]] + ra && tb == seq![b[0]] + rb);
        assert(matched_equiv(ta, tb)) by {
            assert(forall|i: int|
                1 <= i < ta.len() ==> #[trigger] ta[i] == ra[i - 1] && tb[i] == rb[i - 1]);
        }
    } else {
        assert(ta == seq![x] + a && tb == seq![y] + b);
        assert(matched_equiv(ta, tb)) by {
            assert(forall|i: int|
                1 <= i < ta.len() ==> #[trigger] ta[i] == a[i - 1] && tb[i] == b[i - 1]);
        }
    }
}

/// Sorting sends equivalent inputs to equivalent outputs.
proof fn lemma_sort_asc_equiv(
    a: Seq<((int, int, int), RuleView)>,
    b: Seq<((int, int, int), RuleView)>,
)
    requires
        matched_equiv(a, b),
    ensures
        matched_equiv(spec_sort_asc(a), spec_sort_asc(b)),
    decreases a.len(),
{
    if a.len() > 0 {
        assert(matched_equiv(a.drop_last(), b.drop_last())) by {
            assert(forall|i: int|
                0 <= i < a.drop_last().len() ==> #[trigger] a.drop_last()[i] == a[i]
                    && b.drop_last()[i] == b[i]);
        }
        lemma_sort_asc_equiv(a.drop_last(), b.drop_last());
        assert(a.last().0 == b.last().0 && a.last().1.declarations == b.last().1.declarations);
        lemma_insert_asc_equiv(
            spec_sort_asc(a.drop_last()),
            spec_sort_asc(b.drop_last()),
            a.last(),
            b.last(),
        );
    }
}

/// The fold reads only declarations, so equivalent matched sequences
/// fold to the same entries.
proof fn lemma_apply_rules_equiv(
    m: Seq<(Seq<char>, ValueView)>,
    a: Seq<((int, int, int), RuleView)>,
    b: Seq<((int, int, int), RuleView)>,
)
    requires
        matched_equiv(a, b),
    ensures
        spec_apply_rules(m, a) == spec_apply_rules(m, b),
    decreases a.len(),
{
    if a.len() > 0 {
        assert(matched_equiv(a.drop_last(), b.drop_last())) by {
            assert(forall|i: int|
                0 <= i < a.drop_last().len() ==> #[trigger] a.drop_last()[i] == a[i]
                    && b.drop_last()[i] == b[i]);
        }
        lemma_apply_rules_equiv(m, a.drop_last(), b.drop_last());
        assert(a[a.len() - 1] == a.last() && b[a.len() - 1] == b.last());
        assert(a.last().1.declarations == b.last().1.declarations);
    }
}

/// Rule by rule, equal match results and equal declarations give
/// equivalent matched sequences.
proof fn lemma_matching_rules_equiv(e: ElemView, sh1: Seq<RuleView>, sh2: Seq<RuleView>)
    requires
        sh1.len() == sh2.len(),
        forall|k: int|
            0 <= k < sh1.len() ==> #[trigger] spec_match_rule(e, sh1[k]) == spec_match_rule(
                e,
                sh2[k],
            ) && sh1[k].declarations == sh2[k].declarations,
    ensures
        matched_equiv(spec_matching_rules(e, sh1), spec_matching_rules(e, sh2)),
    decreases sh1.len(),
{
    if sh1.len() > 0 {
        assert(forall|k: int|
            0 <= k < sh1.drop_last().len() ==> #[trigger] sh1.drop_last()[k] == sh1[k]
                && sh2.drop_last()[k] == sh2[k]);
        lemma_matching_rules_equiv(e, sh1.drop_last(), sh2.drop_last());
        let fa = spec_matching_rules(e, sh1.drop_last());
        let fb = spec_matching_rules(e, sh2.drop_last());
        assert(sh1.last() == sh1[sh1.len() - 1] && sh2.last() == sh2[sh1.len() - 1]);
        match spec_match_rule(e, sh1.last()) {
            Option::Some(t) => {
                let pa = fa.push((t, sh1.last()));
                let pb = fb.push((t, sh2.last()));
                assert forall|i: int| 0 <= i < pa.len() implies pa[i].0 == pb[i].0
                    && pa[i].1.declarations == pb[i].1.declarations by {
                    if i < fa.len() {
                        assert(pa[i] == fa[i] && pb[i] == fb[i]);
                    } else {
                        assert(pa[i] == (t, sh1.last()) && pb[i] == (t, sh2.last()));
                        assert(spec_match_rule(e, sh1[sh1.len() - 1]) == spec_match_rule(
                            e,
                            sh2[sh1.len() - 1],
                        ));
                    }
                }
                assert(matched_equiv(pa, pb));
            },
            Option::None => {},
        }
    }
}

/// Selector-list order independence, end to end: stylesheets whose rules
/// pair the same declarations with the same selectors — each rule's
/// selector list sorted descending, as parsing leaves it, and equal as a
/// multiset to its counterpart — resolve every element to the same
/// property entries.
pub proof fn lemma_order_independent_maps(e: ElemView, sh1: Seq<RuleView>, sh2: Seq<RuleView>)
    requires
        sh1.len() == sh2.len(),
        forall|k: int|
            0 <= k < sh1.len() ==> #[trigger] sh1[k].declarations == sh2[k].declarations,
        forall|k: int|
            0 <= k < sh1.len() ==> crate::css::spec_sorted_desc(#[trigger] sh1[k].selectors)
                && crate::css::spec_sorted_desc(sh2[k].selectors) && sh1[k].selectors.to_multiset()
                == sh2[k].selectors.to_multiset(),
    ensures
        spec_specified_values(e, sh1) == spec_specified_values(e, sh2),
{
    assert forall|k: int| 0 <= k < sh1.len() implies #[trigger] spec_match_rule(e, sh1[k])
        == spec_match_rule(e, sh2[k]) && sh1[k].declarations == sh2[k].declarations by {
        lemma_first_match_multiset(e, sh1[k].selectors, sh2[k].selectors);
    }
    lemma_matching_rules_equiv(e, sh1, sh2);
    lemma_sort_asc_equiv(spec_matching_rules(e, sh1), spec_matching_rules(e, sh2));
    lemma_apply_rules_equiv(
        Seq::empty(),
        spec_sort_asc(spec_matching_rules(e, sh1)),
        spec_sort_asc(spec_matching_rules(e, sh2)),
    );
}

/// Folds one rule's declarations into the map, in order.
fn apply_declarations(values: &mut PropertyMap, rule: &Rule)
    ensures
        final(values)@ == spec_apply_declarations(old(values)@, rule@.declarations),
{
    let ghost m0 = values@;
    let ghost decls = rule@.declarations;
    let n = rule.declarations.len();
    let mut j: usize = 0;
    loop
        invariant
            0 <= j <= n,
            n == rule.declarations@.len(),
            decls == rule@.declarations,
            values@ == spec_apply_declarations(m0, decls.take(j as int)),
        ensures
            values@ == spec_apply_declarations(m0, decls),
        decreases n - j,
    {
        if j >= n {
            proof {
                assert(decls.take(n as int) =~= decls);
            }
            break;
        }
        proof {
            assert(decls.take(j as int + 1).drop_last() =~= decls.take(j as int));
            assert(decls.take(j as int + 1).last() == decls[j as int]);
        }
        let d = &rule.declarations[j];
        values.insert(d.name.clone(), d.value.clone());
        j = j + 1;
    }
    proof {
        assert(decls.take(0) =~= Seq::<DeclarationView>::empty());
    }
}

// ---------------------------------------------------------------------------
// The styled tree
// ---------------------------------------------------------------------------

/// A styled node: the document node it mirrors, its resolved property
/// map, and its styled children in document order.  Built once per
/// resolution pass over an unchanged document and stylesheet.
pub struct StyledNode<'a> {
    node: &'a Node,
    specified_values: PropertyMap,
    children: Vec<StyledNode<'a>>,
}

/// Mathematical image of a styled node.
#[verifier::ext_equal]
pub struct StyledView {
    pub node: NodeView,
    pub props: Seq<(Seq<char>, ValueView)>,
    pub children: Seq<StyledView>,
}

/// Mathematical image of a styled node.
pub closed spec fn styled_view<'a>(sn: StyledNode<'a>) -> StyledView
    decreases sn,
{
    StyledView {
        node: sn.node@,
        props: sn.specified_values@,
        children: styled_views(sn.children@),
    }
}

/// The views of a sequence of styled nodes.
pub closed spec fn styled_views<'a>(v: Seq<StyledNode<'a>>) -> Seq<StyledView>
    decreases v,
{
    if v.len() == 0 {
        Seq::empty()
    } else {
        styled_views(v.drop_last()).push(styled_view(v.last()))
    }
}

impl<'a> View for StyledNode<'a> {
    type V = StyledView;

    closed spec fn view(&self) -> StyledView {
        styled_view(*self)
    }
}

impl<'a> StyledNode<'a> {
    /// The document node this styled node mirrors.
    pub fn node(&self) -> (r: &'a Node)
        ensures
            r@ == self@.node,
    {
        self.node
    }

    /// The resolved property map.
    pub fn specified_values(&self) -> (r: &PropertyMap)
        ensures
            r@ == self@.props,
    {
        &self.specified_values
    }

    /// The styled children, in document order.
    pub fn children(&self) -> (r: &Vec<StyledNode<'a>>)
        ensures
            styled_views(r@) == self@.children,
    {
        &self.children
    }
}

/// The text of the synthetic rule an inline style attribute is parsed
/// as: the attribute's text wrapped as the block of one rule.
pub open spec fn inline_wrap(s: Seq<char>) -> Seq<char> {
    seq!['r', 'u', 'l', 'e', '{'] + s + seq!['}']
}

/// The property entries after an inline style attribute: the attribute
/// text is parsed as the block of one synthetic rule and that rule's
/// declarations overwrite the base entries unconditionally.
pub open spec fn spec_inline_props(base: Seq<(Seq<char>, ValueView)>, sty: Seq<char>) -> Result<
    Seq<(Seq<char>, ValueView)>,
    (CssErrorKind, int),
> {
    match crate::css::spec_parse(inline_wrap(sty)) {
        Err(e) => Err(e),
        Ok(rules) => Ok(
            if rules.len() > 0 {
                spec_apply_declarations(base, rules[0].declarations)
            } else {
                base
            },
        ),
    }
}

/// The styled tree of a node: children are styled recursively; an element
/// gets its specified values, overwritten by its inline style attribute
/// if it carries one; a text node gets an empty property map.  A
/// malformed inline style is the one way resolution fails.
pub open spec fn spec_style_tree(n: NodeView, sheet: Seq<RuleView>) -> Result<
    StyledView,
    (CssErrorKind, int),
>
    decreases n,
{
    match spec_style_children(n.children, sheet) {
        Err(e) => Err(e),
        Ok(kids) => match n.node_type {
            NodeTypeView::Element(e) => {
                let base = spec_specified_values(e, sheet);
                match spec_attr(e, crate::dom::style_key()) {
                    Option::Some(sty) => match spec_inline_props(base, sty) {
                        Err(er) => Err(er),
                        Ok(props) => Ok(StyledView { node: n, props, children: kids }),
                    },
                    Option::None => Ok(StyledView { node: n, props: base, children: kids }),
                }
            },
            NodeTypeView::Text(_) => Ok(
                StyledView { node: n, props: Seq::empty(), children: kids },
            ),
        },
    }
}

/// The styled forest of a node sequence, left to right; the first error
/// wins.
pub open spec fn spec_style_children(ns: Seq<NodeView>, sheet: Seq<RuleView>) -> Result<
    Seq<StyledView>,
    (CssErrorKind, int),
>
    decreases ns,
{
    if ns.len() == 0 {
        Ok(Seq::empty())
    } else {
        match spec_style_children(ns.drop_last(), sheet) {
            Err(e) => Err(e),
            Ok(front) => match spec_style_tree(ns.last(), sheet) {
                Err(e) => Err(e),
                Ok(c) => Ok(front.push(c)),
            },
        }
    }
}

/// A failure among the first `k` children is the failure of the whole
/// sequence.
proof fn lemma_style_children_extend(ns: Seq<NodeView>, sheet: Seq<RuleView>, k: int)
    requires
        0 <= k <= ns.len(),
        spec_style_children(ns.take(k), sheet) is Err,
    ensures
        spec_style_children(ns, sheet) == spec_style_children(ns.take(k), sheet),
    decreases ns.len(),
{
    if k == ns.len() {
        assert(ns.take(k) =~= ns);
    } else {
        assert(ns.drop_last().take(k) =~= ns.take(k));
        lemma_style_children_extend(ns.drop_last(), sheet, k);
    }
}

/// Computes the element's specified values from the stylesheet: matching
/// rules are collected, stably sorted ascending by specificity, and their
/// declarations folded into a property map.
pub fn specified_values(elem: &ElementData, stylesheet: &StyleSheet) -> (r: PropertyMap)
    ensures
        r@ == spec_specified_values(elem@, stylesheet@),
{
    let mut values: PropertyMap = StrMap::new();
    let rules = matching_rules(elem, stylesheet);
    let rules = sort_matched(rules);
    let ghost sorted = match_views(rules@);
    let n = rules.len();
    let mut i: usize = 0;
    loop
        invariant
            0 <= i <= n,
            n == rules@.len(),
            sorted == match_views(rules@),
            sorted.len() == n,
            values@ == spec_apply_rules(Seq::empty(), sorted.take(i as int)),
        ensures
            values@ == spec_apply_rules(Seq::empty(), sorted),
        decreases n - i,
    {
        if i >= n {
            proof {
                assert(sorted.take(n as int) =~= sorted);
            }
            break;
        }
        proof {
            assert(sorted.take(i as int + 1).drop_last() =~= sorted.take(i as int));
            assert(sorted.take(i as int + 1).last() == sorted[i as int]);
        }
        apply_declarations(&mut values, rules[i].1);
        i = i + 1;
    }
    values
}

/// Builds the styled tree of a document node under a stylesheet:
/// depth-first, children before their parent, sibling order preserved.
/// The one failure is a malformed inline style attribute somewhere in
/// the tree.
pub fn style_tree<'a>(root: &'a Node, stylesheet: &'a StyleSheet) -> (r: Result<
    StyledNode<'a>,
    CssError,
>)
    ensures
        match r {
            Ok(sn) => spec_style_tree(root@, stylesheet@) == Ok::<_, (CssErrorKind, int)>(sn@),
            Err(e) => spec_style_tree(root@, stylesheet@) == Err::<StyledView, _>(
                (e.kind, e.pos as int),
            ),
        },
    decreases *root,
{
    let ghost nv = root@;
    let ghost sheet = stylesheet@;
    proof {
        crate::dom::lemma_node_views(root.children@);
    }
    let mut specified: PropertyMap = match &root.node_type {
        NodeType::Element(elem) => specified_values(elem, stylesheet),
        NodeType::Text(_) => StrMap::new(),
    };
    let n = root.children.len();
    let mut styled_children: Vec<StyledNode<'a>> = Vec::new();
    let mut i: usize = 0;
    proof {
        assert(nv.children.take(0) =~= Seq::<NodeView>::empty());
        assert(styled_views(styled_children@) =~= Seq::<StyledView>::empty());
    }
    loop
        invariant
            0 <= i <= n,
            n == root.children@.len(),
            nv == root@,
            sheet == stylesheet@,
            nv.children.len() == n,
            forall|m: int| 0 <= m < n ==> nv.children[m] == root.children@[m]@,
            spec_style_children(nv.children.take(i as int), sheet) == Ok::<
                _,
                (CssErrorKind, int),
            >(styled_views(styled_children@)),
        ensures
            spec_style_children(nv.children, sheet) == Ok::<_, (CssErrorKind, int)>(
                styled_views(styled_children@),
            ),
        decreases n - i,
    {
        if i >= n {
            proof {
                assert(nv.children.take(n as int) =~= nv.children);
            }
            break;
        }
        proof {
            assert(nv.children.take(i as int + 1).drop_last() =~= nv.children.take(i as int));
            assert(nv.children.take(i as int + 1).last() == nv.children[i as int]);
        }
        match style_tree(&root.children[i], stylesheet) {
            Ok(c) => {
                let ghost kids0 = styled_children@;
                styled_children.push(c);
                proof {
                    let pushed = styled_children@;
                    assert(pushed.drop_last() =~= kids0);
                    assert(pushed.last() == c);
                    assert(styled_views(pushed) == styled_views(kids0).push(c@));
                }
            },
            Err(e) => {
                proof {
                    lemma_style_children_extend(nv.children, sheet, i as int + 1);
                }
                return Err(e);
            },
        }
        i = i + 1;
    }
    if let NodeType::Element(elem) = &root.node_type {
        proof {
            reveal_strlit("style");
            assert("style"@ =~= crate::dom::style_key());
        }
        match elem.get_attr("style") {
            Some(sty) => {
                let mut text = String::from_str("rule{");
                text.append(sty.as_str());
                text.append("}");
                proof {
                    reveal_strlit("rule{");
                    reveal_strlit("}");
                    assert(text@ =~= inline_wrap(sty@));
                }
                match crate::css::Parser::parse(text.as_str()) {
                    Ok(inline_sheet) => {
                        if inline_sheet.rules.len() > 0 {
                            proof {
                                assert(inline_sheet@[0] == inline_sheet.rules@[0]@);
                            }
                            apply_declarations(&mut specified, &inline_sheet.rules[0]);
                        }
                    },
                    Err(e) => {
                        return Err(e);
                    },
                }
            },
            None => {},
        }
    }
    let sn = StyledNode { node: root, specified_values: specified, children: styled_children };
    proof {
        assert(sn@ == styled_view(sn));
    }
    Ok(sn)
}

/// Idempotence of resolution: styling the same document under the same
/// stylesheet a second time yields an equal styled tree, property maps
/// included — resolution is a function of its inputs and of nothing
/// else.
pub proof fn lemma_style_tree_deterministic(
    n: NodeView,
    sheet: Seq<RuleView>,
    r1: StyledView,
    r2: StyledView,
)
    requires
        spec_style_tree(n, sheet) == Ok::<StyledView, (CssErrorKind, int)>(r1),
        spec_style_tree(n, sheet) == Ok::<StyledView, (CssErrorKind, int)>(r2),
    ensures
        r1 == r2,
{
}

} // verus!
