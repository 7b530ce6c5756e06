//! What each kind of node asks of a value.
use vstd::prelude::*;

use crate::context::Rules;
use crate::ivt::{Choice, Group, Literal, Node, PreludeType, Range};
use crate::semantics::{
    array_member, bound, judge, judge_array, judge_group, judge_literal, judge_mapping,
    judge_options, judge_prelude_type, judge_range, judge_rule, literal_value, map_member,
};
use crate::text::{decimal, literal_text, range_text};
use crate::util::{ErrorView, Verdict};
use crate::value::ValueView;

verus! {

/// A literal stands for a value of its own kind, and for no other.
pub open spec fn stands_for(l: Literal, v: ValueView) -> bool {
    ||| l matches Literal::Bool(a) && v matches ValueView::Bool(b) && a == b
    ||| l matches Literal::Int(a) && v matches ValueView::Integer(b) && a as int == b
    ||| l matches Literal::Float(a) && v matches ValueView::Float(b) && a.value.bits == b.bits
    ||| l matches Literal::Text(a) && v matches ValueView::Text(b) && a@ == b
    ||| l matches Literal::Bytes(a) && v matches ValueView::Bytes(b) && a@ == b
}

/// Without a step nothing is settled.
pub proof fn lemma_no_step_settles_nothing(v: ValueView, n: Node, rules: Rules)
    ensures
        judge(0, v, n, rules) is None,
        array_member(0, n, Seq::empty(), rules) is None,
        map_member(0, n, Seq::empty(), rules) is None,
        bound(0, n, rules) is None,
{
}

/// A literal matches the value that it stands for, and of any other value it says what it is.
pub proof fn lemma_literal_matches(d: nat, l: Literal, v: ValueView, rules: Rules)
    ensures
        stands_for(l, v) ==> judge(d + 1, v, Node::Literal(l), rules) matches Some(Ok(_)),
        !stands_for(l, v) ==> judge(d + 1, v, Node::Literal(l), rules) == Some(
            Err::<(), ErrorView>(ErrorView::Mismatch(literal_text(l))),
        ),
        judge(d + 1, v, Node::Literal(l), rules) == Some(judge_literal(l, v)),
        stands_for(l, v) <==> v == literal_value(l),
{
}

/// The verdict is that the value matches, or that something else was expected.
pub open spec fn matches_or(verdict: Option<Verdict>, fits: bool, what: Seq<char>) -> bool {
    if fits {
        verdict matches Some(Ok(_))
    } else {
        verdict == Some(Err::<(), ErrorView>(ErrorView::Mismatch(what)))
    }
}

/// The types that need no definition match the values of their kind.
pub proof fn lemma_prelude_types_match(d: nat, v: ValueView, rules: Rules)
    ensures
        matches_or(judge(d + 1, v, Node::PreludeType(PreludeType::Any), rules), true, "any"@),
        matches_or(judge(d + 1, v, Node::PreludeType(PreludeType::Nil), rules), v is Null, "nil"@),
        matches_or(
            judge(d + 1, v, Node::PreludeType(PreludeType::Bool), rules),
            v is Bool,
            "bool"@,
        ),
        matches_or(
            judge(d + 1, v, Node::PreludeType(PreludeType::Int), rules),
            v is Integer,
            "int"@,
        ),
        matches_or(
            judge(d + 1, v, Node::PreludeType(PreludeType::Uint), rules),
            v matches ValueView::Integer(i) && i >= 0,
            "uint"@,
        ),
        matches_or(
            judge(d + 1, v, Node::PreludeType(PreludeType::Nint), rules),
            v matches ValueView::Integer(i) && i < 0,
            "nint"@,
        ),
        matches_or(
            judge(d + 1, v, Node::PreludeType(PreludeType::Float), rules),
            v is Float,
            "float"@,
        ),
        matches_or(
            judge(d + 1, v, Node::PreludeType(PreludeType::Tstr), rules),
            v is Text,
            "tstr"@,
        ),
        matches_or(
            judge(d + 1, v, Node::PreludeType(PreludeType::Bstr), rules),
            v is Bytes,
            "bstr"@,
        ),
        forall|p: PreludeType| #[trigger]
            judge(d + 1, v, Node::PreludeType(p), rules) == Some(judge_prelude_type(p, v)),
{
}

/// An option that fails, but leaves those after it a chance: with either kind of mismatch.
pub open spec fn fails_softly(verdict: Option<Verdict>) -> bool {
    ||| verdict matches Some(Err(ErrorView::Mismatch(_)))
    ||| verdict matches Some(Err(ErrorView::MapCut(_)))
}

/// The same outcome: both are open, both match, or both fail with the same error.
pub open spec fn same_verdict(a: Option<Verdict>, b: Option<Verdict>) -> bool {
    ||| a is None && b is None
    ||| a matches Some(Ok(_)) && b matches Some(Ok(_))
    ||| a matches Some(Err(x)) && b matches Some(Err(y)) && x == y
}

proof fn lemma_options_from(d: nat, options: Seq<Node>, k: int, i: int, v: ValueView, rules: Rules)
    requires
        0 <= k <= i <= options.len(),
        forall|j: int| k <= j < i ==> fails_softly(judge(d, v, #[trigger] options[j], rules)),
        i < options.len() ==> !fails_softly(judge(d, v, options[i], rules)),
    ensures
        if i < options.len() {
            same_verdict(judge_options(d, options, k, v, rules), judge(d, v, options[i], rules))
        } else {
            judge_options(d, options, k, v, rules) == Some(
                Err::<(), ErrorView>(
                    ErrorView::Mismatch("choice of "@ + decimal(options.len())),
                ),
            )
        },
    decreases i - k,
{
    if k < i {
        assert(fails_softly(judge(d, v, options[k], rules)));
        lemma_options_from(d, options, k + 1, i, v, rules);
    }
}

/// A choice tries its options first to last. The first that does not fail softly decides: if it
/// matches, so does the choice, whatever the options before it; if it fails fatally, so does the
/// choice, whatever the options after it. If all fail softly, the choice says how many there were.
pub proof fn lemma_choice_decided(d: nat, c: Choice, i: int, v: ValueView, rules: Rules)
    requires
        0 <= i <= c.options@.len(),
        forall|j: int| 0 <= j < i ==> fails_softly(judge(d, v, #[trigger] c.options@[j], rules)),
        i < c.options@.len() ==> !fails_softly(judge(d, v, c.options@[i], rules)),
    ensures
        if i < c.options@.len() {
            same_verdict(
                judge(d + 1, v, Node::Choice(c), rules),
                judge(d, v, c.options@[i], rules),
            )
        } else {
            judge(d + 1, v, Node::Choice(c), rules) == Some(
                Err::<(), ErrorView>(
                    ErrorView::Mismatch("choice of "@ + decimal(c.options@.len())),
                ),
            )
        },
        judge(d + 1, v, Node::Choice(c), rules) == judge_options(
            d,
            c.options@,
            0,
            v,
            rules,
        ),
{
    lemma_options_from(d, c.options@, 0, i, v, rules);
}

/// Option `i` matches, and those before it fail softly.
pub open spec fn chosen(d: nat, c: Choice, i: int, v: ValueView, rules: Rules) -> bool {
    &&& 0 <= i < c.options@.len()
    &&& judge(d, v, c.options@[i], rules) matches Some(Ok(_))
    &&& forall|j: int| 0 <= j < i ==> fails_softly(judge(d, v, #[trigger] c.options@[j], rules))
}

proof fn lemma_first_decisive(d: nat, options: Seq<Node>, k: int, v: ValueView, rules: Rules) -> (i:
    int)
    requires
        0 <= k <= options.len(),
        forall|j: int| 0 <= j < k ==> fails_softly(judge(d, v, #[trigger] options[j], rules)),
    ensures
        k <= i <= options.len(),
        forall|j: int| 0 <= j < i ==> fails_softly(judge(d, v, #[trigger] options[j], rules)),
        i < options.len() ==> !fails_softly(judge(d, v, options[i], rules)),
    decreases options.len() - k,
{
    if k < options.len() && fails_softly(judge(d, v, options[k], rules)) {
        lemma_first_decisive(d, options, k + 1, v, rules)
    } else {
        k
    }
}

/// A choice matches exactly when one of its options does and those before it fail softly.
pub proof fn lemma_choice_node_matches(d: nat, c: Choice, v: ValueView, rules: Rules)
    ensures
        (judge(d + 1, v, Node::Choice(c), rules) matches Some(Ok(_))) <==> exists|i: int|
            chosen(d, c, i, v, rules),
{
    let i = lemma_first_decisive(d, c.options@, 0, v, rules);
    lemma_choice_decided(d, c, i, v, rules);
    if judge(d + 1, v, Node::Choice(c), rules) matches Some(Ok(_)) {
        assert(chosen(d, c, i, v, rules));
    }
    if exists|k: int| chosen(d, c, k, v, rules) {
        let k = choose|k: int| chosen(d, c, k, v, rules);
        if i < k {
            assert(fails_softly(judge(d, v, c.options@[i], rules)));
        }
        if k < i {
            assert(fails_softly(judge(d, v, c.options@[k], rules)));
        }
    }
}

/// The order of two options that cannot fail fatally does not matter to whether a choice matches.
pub proof fn lemma_either_order_matches(
    d: nat,
    a: Choice,
    b: Choice,
    v: ValueView,
    rules: Rules,
)
    requires
        a.options@.len() == 2,
        b.options@ == seq![a.options@[1], a.options@[0]],
        fails_softly(judge(d, v, a.options@[0], rules)) || (judge(d, v, a.options@[0], rules)
            matches Some(Ok(_))),
        fails_softly(judge(d, v, a.options@[1], rules)) || (judge(d, v, a.options@[1], rules)
            matches Some(Ok(_))),
    ensures
        (judge(d + 1, v, Node::Choice(a), rules) matches Some(Ok(_))) <==> (judge(
            d + 1,
            v,
            Node::Choice(b),
            rules,
        ) matches Some(Ok(_))),
        (judge(d + 1, v, Node::Choice(a), rules) matches Some(Ok(_))) <==> (judge(
            d,
            v,
            a.options@[0],
            rules,
        ) matches Some(Ok(_))) || (judge(d, v, a.options@[1], rules) matches Some(Ok(_))),
{
    let i = lemma_first_decisive(d, a.options@, 0, v, rules);
    let j = lemma_first_decisive(d, b.options@, 0, v, rules);
    lemma_choice_decided(d, a, i, v, rules);
    lemma_choice_decided(d, b, j, v, rules);
    assert(b.options@[0] == a.options@[1]);
    assert(b.options@[1] == a.options@[0]);
    if i == 2 {
        assert(fails_softly(judge(d, v, a.options@[0], rules)));
        assert(fails_softly(judge(d, v, a.options@[1], rules)));
    }
    if j == 2 {
        assert(fails_softly(judge(d, v, b.options@[0], rules)));
        assert(fails_softly(judge(d, v, b.options@[1], rules)));
    }
    if i == 1 {
        assert(fails_softly(judge(d, v, a.options@[0], rules)));
    }
    if j == 1 {
        assert(fails_softly(judge(d, v, b.options@[0], rules)));
    }
}

/// A group by itself is as good as its single member; with none, or more than one, it is not
/// supported.
pub proof fn lemma_group_alone(d: nat, g: Group, v: ValueView, rules: Rules)
    ensures
        g.members@.len() == 1 ==> judge(d + 1, v, Node::Group(g), rules) == judge(
            d,
            v,
            g.members@[0],
            rules,
        ),
        g.members@.len() != 1 ==> judge(d + 1, v, Node::Group(g), rules) == Some(
            Err::<(), ErrorView>(ErrorView::Unsupported("standalone group"@)),
        ),
        judge(d + 1, v, Node::Group(g), rules) == judge_group(d, g, v, rules),
{
    reveal_with_fuel(judge_group, 2);
    assert(judge(d + 1, v, Node::Group(g), rules) == judge_group(d, g, v, rules));
}

/// Keys with values, occurrences and unwrapped rules make no sense outside arrays and maps.
pub proof fn lemma_misplaced_nodes(d: nat, n: Node, v: ValueView, rules: Rules)
    ensures
        n is KeyValue ==> judge(d + 1, v, n, rules) == Some(
            Err::<(), ErrorView>(ErrorView::StructuralError("unexpected KeyValue"@)),
        ),
        n is Occur ==> judge(d + 1, v, n, rules) == Some(
            Err::<(), ErrorView>(ErrorView::StructuralError("unexpected Occur"@)),
        ),
        n is Unwrap ==> judge(d + 1, v, n, rules) == Some(
            Err::<(), ErrorView>(ErrorView::StructuralError("unexpected Unwrap"@)),
        ),
{
}

/// Rules, arrays, maps and ranges are judged by what they hold.
pub proof fn lemma_judge_parts(d: nat, n: Node, v: ValueView, rules: Rules)
    ensures
        n matches Node::Rule(r) ==> judge(d + 1, v, n, rules) == judge_rule(d, r, v, rules),
        n matches Node::Array(a) ==> judge(d + 1, v, n, rules) == judge_array(d, a, v, rules),
        n matches Node::Mapping(m) ==> judge(d + 1, v, n, rules) == judge_mapping(d, m, v, rules),
        n matches Node::Range(r) ==> judge(d + 1, v, n, rules) == judge_range(d, r, v, rules),
{
}

/// A bound of a range is a literal, or a rule that stands for a bound; anything else confuses.
pub proof fn lemma_bound_resolves(d: nat, n: Node, rules: Rules)
    ensures
        n matches Node::Literal(l) ==> bound(d + 1, n, rules) == Some(Ok::<Literal, ErrorView>(l)),
        n matches Node::Rule(r) ==> match rules(r.name@) {
            Ok(node) => bound(d + 1, n, rules) == bound(d, node, rules),
            Err(e) => bound(d + 1, n, rules) == Some(Err::<Literal, ErrorView>(e)),
        },
        !(n is Literal) && !(n is Rule) ==> bound(d + 1, n, rules) == Some(
            Err::<Literal, ErrorView>(
                ErrorView::StructuralError("confusing type on range operator"@),
            ),
        ),
{
}

/// The error of a bound is the error of the range, that of the start before that of the end; and
/// while one of them is open, so is the range.
pub proof fn lemma_range_needs_bounds(d: nat, r: Range, v: ValueView, rules: Rules)
    ensures
        bound(d, *r.start, rules) is None ==> judge(d + 1, v, Node::Range(r), rules) is None,
        bound(d, *r.start, rules) matches Some(Err(e)) ==> judge(d + 1, v, Node::Range(r), rules)
            == Some(Err::<(), ErrorView>(e)),
        bound(d, *r.start, rules) matches Some(Ok(_)) ==> bound(d, *r.end, rules) is None ==> judge(
            d + 1,
            v,
            Node::Range(r),
            rules,
        ) is None,
        bound(d, *r.start, rules) matches Some(Ok(_)) ==> bound(d, *r.end, rules) matches Some(
            Err(e),
        ) ==> judge(d + 1, v, Node::Range(r), rules) == Some(Err::<(), ErrorView>(e)),
{
    assert(judge(d + 1, v, Node::Range(r), rules) == judge_range(d, r, v, rules));
}

/// A range between integers matches the integers from the start up to the end, negative ones too;
/// the end itself only if it is included. Nothing else matches.
pub proof fn lemma_integer_range(
    d: nat,
    r: Range,
    start: i128,
    end: i128,
    v: ValueView,
    rules: Rules,
)
    requires
        bound(d, *r.start, rules) == Some(Ok::<Literal, ErrorView>(Literal::Int(start))),
        bound(d, *r.end, rules) == Some(Ok::<Literal, ErrorView>(Literal::Int(end))),
    ensures
        matches_or(
            judge(d + 1, v, Node::Range(r), rules),
            v matches ValueView::Integer(x) && start <= x && (x < end || r.inclusive && x == end),
            range_text(r),
        ),
{
    assert(judge(d + 1, v, Node::Range(r), rules) == judge_range(d, r, v, rules));
}

/// A range whose bounds are integer literals matches the integers from the one to the other.
pub proof fn lemma_literal_range(d: nat, r: Range, start: i128, end: i128, x: int, rules: Rules)
    requires
        *r.start == Node::Literal(Literal::Int(start)),
        *r.end == Node::Literal(Literal::Int(end)),
    ensures
        (judge(d + 2, ValueView::Integer(x), Node::Range(r), rules) matches Some(Ok(_))) <==> start
            <= x && (x < end || r.inclusive && x == end),
{
    lemma_bound_resolves(d, *r.start, rules);
    lemma_bound_resolves(d, *r.end, rules);
    lemma_integer_range((d + 1) as nat, r, start, end, ValueView::Integer(x), rules);
}

/// A range between integers does not depend on where zero is: shifting the bounds and the value
/// alike changes nothing.
pub proof fn lemma_range_shifts(
    d: nat,
    r: Range,
    s: Range,
    start: i128,
    end: i128,
    by: int,
    x: int,
    rules: Rules,
)
    requires
        i128::MIN <= start + by <= i128::MAX,
        i128::MIN <= end + by <= i128::MAX,
        *r.start == Node::Literal(Literal::Int(start)),
        *r.end == Node::Literal(Literal::Int(end)),
        *s.start == Node::Literal(Literal::Int((start + by) as i128)),
        *s.end == Node::Literal(Literal::Int((end + by) as i128)),
        r.inclusive == s.inclusive,
    ensures
        (judge(d + 2, ValueView::Integer(x), Node::Range(r), rules) matches Some(Ok(_))) <==> (
        judge(d + 2, ValueView::Integer(x + by), Node::Range(s), rules) matches Some(Ok(_))),
{
    lemma_literal_range(d, r, start, end, x, rules);
    lemma_literal_range(d, s, (start + by) as i128, (end + by) as i128, x + by, rules);
}

/// A range between floating-point numbers matches the numbers that are not below the start and are
/// below the end, or equal to it if it is included. What is no number neither stands below anything
/// nor is equal to anything.
pub proof fn lemma_float_range(
    d: nat,
    r: Range,
    start: Literal,
    end: Literal,
    v: ValueView,
    rules: Rules,
)
    requires
        start is Float,
        end is Float,
        bound(d, *r.start, rules) == Some(Ok::<Literal, ErrorView>(start)),
        bound(d, *r.end, rules) == Some(Ok::<Literal, ErrorView>(end)),
    ensures
        ({
            let (a, b) = (start->Float_0.value, end->Float_0.value);
            matches_or(
                judge(d + 1, v, Node::Range(r), rules),
                v matches ValueView::Float(x) && !x.is_nan() && !b.is_nan() && (a.is_nan()
                    || a.units() <= x.units()) && (x.units() < b.units() || r.inclusive
                    && x.units() == b.units()),
                range_text(r),
            )
        }),
{
    assert(judge(d + 1, v, Node::Range(r), rules) == judge_range(d, r, v, rules));
}

/// Bounds of one kind that is not ordered match nothing, and bounds of different kinds make no
/// sense.
pub proof fn lemma_unordered_range(
    d: nat,
    r: Range,
    start: Literal,
    end: Literal,
    v: ValueView,
    rules: Rules,
)
    requires
        bound(d, *r.start, rules) == Some(Ok::<Literal, ErrorView>(start)),
        bound(d, *r.end, rules) == Some(Ok::<Literal, ErrorView>(end)),
    ensures
        start is Bool && end is Bool || start is Text && end is Text || start is Bytes
            && end is Bytes ==> judge(d + 1, v, Node::Range(r), rules) == Some(
            Err::<(), ErrorView>(ErrorView::Mismatch(range_text(r))),
        ),
        !(start is Bool && end is Bool || start is Text && end is Text || start is Bytes
            && end is Bytes || start is Int && end is Int || start is Float && end is Float)
            ==> judge(d + 1, v, Node::Range(r), rules) == Some(
            Err::<(), ErrorView>(
                ErrorView::StructuralError("mismatched types on range operator"@),
            ),
        ),
{
    assert(judge(d + 1, v, Node::Range(r), rules) == judge_range(d, r, v, rules));
}

} // verus!
