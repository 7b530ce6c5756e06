//! What outcomes, values and working copies say.
use vstd::prelude::*;

use crate::context::{BasicContext, Context};
use crate::entries::Entries;
use crate::entry_laws::uncut;
use crate::item_laws::limited;
use crate::ivt::{limit_bounds, Literal, Node, OccurLimit};
use crate::map::found;
use crate::runs::ran;
use crate::semantics::{literal_value, Run};
use crate::util::{verdict, ErrorView, ValidateError, ValidateResult};
use crate::validate::outcome;
use crate::value::{entries_view, values_view, Value, ValueView};
use crate::verdict_laws::stands_for;
use crate::working::{array_rewound, popped, recorded, Stock};

verus! {

/// An error says what it holds, and of what kind it is.
pub proof fn lemma_error_says(e: ValidateError)
    ensures
        e matches ValidateError::MissingRule(name) ==> e@ == ErrorView::MissingRule(name@),
        e matches ValidateError::Mismatch(m) ==> e@ == ErrorView::Mismatch(m.expected@),
        e matches ValidateError::MapCut(m) ==> e@ == ErrorView::MapCut(m.expected@),
        e matches ValidateError::StructuralError(what) ==> e@ == ErrorView::StructuralError(what@),
        e matches ValidateError::Unsupported(what) ==> e@ == ErrorView::Unsupported(what@),
{
}

/// Only missing rules, senseless schemas and what is not supported are fatal, and only a cut is
/// changed into something else.
pub proof fn lemma_error_kinds(e: ErrorView)
    ensures
        e.is_fatal() <==> e is MissingRule || e is StructuralError || e is Unsupported,
        uncut(e, e.erase_mapcut()),
        e.erase_mapcut() == e.erase_mapcut().erase_mapcut(),
        e.is_fatal() <==> e.erase_mapcut().is_fatal(),
        !(e.erase_mapcut() is MapCut),
{
}

/// A verdict matches exactly where the outcome is success, and otherwise holds its error.
pub proof fn lemma_verdict_says(r: ValidateResult)
    ensures
        r is Ok <==> verdict(r) is Ok,
        r matches Err(e) ==> verdict(r) == Err::<(), ErrorView>(e@),
        outcome(Some(r)) == Some(verdict(r)),
        outcome(None) is None,
{
}

/// What a function leaves of a working copy is what the run leaves, and what it keeps for the
/// newest snapshot is what the run took.
pub proof fn lemma_ran_says<T>(
    r: Option<ValidateResult>,
    before: Stock<T>,
    after: Stock<T>,
    run: Option<Run<T>>,
)
    requires
        ran(r, before, after, run),
    ensures
        run is None <==> r is None,
        run matches Some(s) ==> {
            &&& r matches Some(result)
            &&& result is Ok <==> s.verdict is Ok
            &&& result matches Err(e) ==> s.verdict == Err::<(), ErrorView>(e@)
            &&& after.items == s.rest
            &&& after.snaps.len() == before.snaps.len()
            &&& before.snaps.len() > 0 ==> after.snaps.last() == before.snaps.last() + s.taken
            &&& forall|i: int|
                0 <= i < before.snaps.len() - 1 ==> #[trigger] after.snaps[i] == before.snaps[i]
        },
{
}

/// What a search gives is an entry of the map at the place that was found.
pub proof fn lemma_found_says(
    r: Option<Result<(Value, &Value), ValidateError>>,
    stock: Entries,
    place: Option<Result<int, ErrorView>>,
)
    requires
        found(r, stock, place),
    ensures
        r is None <==> place is None,
        r matches Some(Err(e)) ==> place == Some(Err::<int, ErrorView>(e@)),
        r matches Some(Ok((key, value))) ==> place matches Some(Ok(i)) && 0 <= i < stock.len()
            && stock[i].0 == key@ && stock[i].1 == value@,
{
}

/// Taking items adds them to what the newest snapshot keeps, and to nothing else.
pub proof fn lemma_newest_snapshot_keeps<T>(snaps: Seq<Seq<T>>, taken: Seq<T>)
    ensures
        recorded(snaps, taken).len() == snaps.len(),
        snaps.len() > 0 ==> recorded(snaps, taken).last() == snaps.last() + taken,
        forall|i: int|
            0 <= i < snaps.len() - 1 ==> #[trigger] recorded(snaps, taken)[i] == snaps[i],
{
}

/// A new snapshot keeps nothing yet, and a retired one hands on what it keeps.
pub proof fn lemma_snapshots_stack<T>(s: Stock<T>)
    ensures
        s.with_snapshot().items == s.items,
        s.with_snapshot().snaps == s.snaps.push(Seq::empty()),
        s.committed().items == s.items,
        s.snaps.len() > 0 ==> s.committed().snaps.len() == s.snaps.len() - 1,
        s.snaps.len() > 1 ==> s.committed().snaps.last() == s.snaps[s.snaps.len() - 2]
            + s.snaps.last(),
{
}

/// The first item is taken from the front, and goes back there.
pub proof fn lemma_array_copy_steps(s: Stock<ValueView>)
    requires
        s.items.len() > 0,
    ensures
        seq![s.items[0]] + popped(s).items == s.items,
        s.snaps.len() > 0 ==> popped(s).snaps.last() == s.snaps.last().push(s.items[0]),
        s.snaps.len() > 0 ==> array_rewound(s).items == s.snaps.last() + s.items,
        s.snaps.len() > 0 ==> array_rewound(s).snaps == s.snaps.subrange(
            0,
            s.snaps.len() - 1,
        ),
{
    assert(seq![s.items[0]] + popped(s).items =~= s.items);
    if s.snaps.len() > 0 {
        assert(popped(s).snaps.last() =~= s.snaps.last().push(s.items[0]));
        assert(array_rewound(s).snaps =~= s.snaps.subrange(0, s.snaps.len() - 1));
    }
}

/// A value holds what its parts hold.
pub proof fn lemma_value_holds(v: Value)
    ensures
        v is Null ==> v@ is Null,
        v matches Value::Bool(b) ==> v@ == ValueView::Bool(b),
        v matches Value::Integer(i) ==> v@ == ValueView::Integer(i as int),
        v matches Value::Float(f) ==> v@ == ValueView::Float(f),
        v matches Value::Bytes(b) ==> v@ == ValueView::Bytes(b@),
        v matches Value::Text(t) ==> v@ == ValueView::Text(t@),
        v matches Value::Array(a) ==> v@ matches ValueView::Array(items) && items.len() == a@.len()
            && forall|i: int| 0 <= i < a@.len() ==> items[i] == (#[trigger] a@[i])@,
        v matches Value::Mapping(m) ==> v@ == ValueView::Mapping(m@),
{
    if let Value::Array(a) = v {
        assert(v@ == ValueView::Array(values_view(a@)));
        lemma_sequences_hold(a@, Seq::empty());
    }
}

/// Sequences of values and of entries hold what each of them holds, in order.
pub proof fn lemma_sequences_hold(s: Seq<Value>, t: Seq<(Value, Value)>)
    ensures
        values_view(s).len() == s.len(),
        forall|i: int| 0 <= i < s.len() ==> values_view(s)[i] == (#[trigger] s[i])@,
        entries_view(t).len() == t.len(),
        forall|i: int|
            0 <= i < t.len() ==> entries_view(t)[i] == ((#[trigger] t[i]).0@, t[i].1@),
{
}

/// A literal stands for one value.
pub proof fn lemma_literal_stands_for_value(l: Literal, v: ValueView)
    ensures
        stands_for(l, literal_value(l)),
        stands_for(l, v) ==> v == literal_value(l),
{
}

/// The limits of an occurrence are those of its mark.
pub proof fn lemma_limits_say(limit: OccurLimit, lower: nat, upper: nat)
    ensures
        limited(limit, lower, upper) <==> limit_bounds(limit).0 == lower && limit_bounds(limit).1
            == upper,
{
}

/// A name stands for its definition, and one without a definition is missing.
pub proof fn lemma_names_stand_for_definitions(ctx: BasicContext, name: Seq<char>)
    ensures
        ctx.definition(name) matches Some(node) ==> (ctx.rules())(name) == Ok::<Node, ErrorView>(
            node,
        ),
        ctx.definition(name) is None ==> (ctx.rules())(name) == Err::<Node, ErrorView>(
            ErrorView::MissingRule(name),
        ),
{
}

} // verus!
