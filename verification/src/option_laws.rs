//! Which of the alternatives among the members of an array or a map decides.
use vstd::prelude::*;

use crate::array_laws::lemma_failed_group_restores_array;
use crate::context::Rules;
use crate::entries::{keys_ascending, Entries};
use crate::ivt::{Choice, Node};
use crate::map_laws::lemma_failed_group_restores_map;
use crate::plain_laws::item_node;
use crate::runs::lemma_resumed_idle;
use crate::semantics::{
    array_member, array_options, array_value, expected_choice, idle, map_keyvalue, map_member,
    map_options, Run,
};
use crate::util::ErrorView;
use crate::value::ValueView;

verus! {

/// An option among the members of a map that leaves the options after it a chance: it does not
/// match, and that is all there is to say.
pub open spec fn map_passes_on(run: Option<Run<(ValueView, ValueView)>>) -> bool {
    match run {
        Some(r) => r.verdict matches Err(ErrorView::Mismatch(_)),
        None => false,
    }
}

/// An option that leaves the options after it a chance, and everything that it found.
pub open spec fn map_declines(run: Option<Run<(ValueView, ValueView)>>, stock: Entries) -> bool {
    map_passes_on(run) && run->Some_0 == idle(run->Some_0.verdict, stock)
}

proof fn lemma_map_options_from(
    d: nat,
    options: Seq<Node>,
    i: int,
    k: int,
    stock: Entries,
    rules: Rules,
)
    requires
        0 <= i <= k <= options.len(),
        forall|j: int|
            0 <= j < k ==> map_declines(
                map_member(d, #[trigger] options[j], stock, rules),
                stock,
            ),
        k < options.len() ==> !map_passes_on(map_member(d, options[k], stock, rules)),
    ensures
        map_options(d, options, i, stock, rules) == (if k < options.len() {
            map_member(d, options[k], stock, rules)
        } else {
            Some(idle(expected_choice(options.len()), stock))
        }),
    decreases k - i,
{
    if i < k {
        lemma_map_options_from(d, options, i + 1, k, stock, rules);
        assert(map_declines(map_member(d, options[i], stock, rules), stock));
        let run = map_member(d, options[i], stock, rules)->Some_0;
        lemma_resumed_idle(
            run.verdict,
            stock,
            map_options(d, options, i + 1, stock, rules),
        );
    }
}

/// In a choice among the members of a map, the first option that matches or fails with anything but
/// a mismatch decides, where those before it leave everything as they found it: the choice gives
/// its verdict, and takes what it takes.
pub proof fn lemma_map_choice_decided(
    d: nat,
    c: Choice,
    k: int,
    stock: Entries,
    rules: Rules,
)
    requires
        0 <= k < c.options@.len(),
        forall|j: int|
            0 <= j < k ==> map_declines(
                map_member(d, #[trigger] c.options@[j], stock, rules),
                stock,
            ),
        !map_passes_on(map_member(d, c.options@[k], stock, rules)),
    ensures
        map_member(d + 1, Node::Choice(c), stock, rules) == map_member(
            d,
            c.options@[k],
            stock,
            rules,
        ),
{
    lemma_map_options_from(d, c.options@, 0, k, stock, rules);
}

/// If all of the options decline, the choice says how many there were, and takes nothing.
pub proof fn lemma_map_choice_exhausted(d: nat, c: Choice, stock: Entries, rules: Rules)
    requires
        forall|j: int|
            0 <= j < c.options@.len() ==> map_declines(
                map_member(d, #[trigger] c.options@[j], stock, rules),
                stock,
            ),
    ensures
        map_member(d + 1, Node::Choice(c), stock, rules) == Some(
            idle(expected_choice(c.options@.len()), stock),
        ),
{
    lemma_map_options_from(d, c.options@, 0, c.options@.len() as int, stock, rules);
}

/// An option that takes nothing if it fails: a key and its value, a group, or a rule that stands
/// for one of them.
pub open spec fn map_option_restores(d: nat, option: Node, stock: Entries, rules: Rules) -> bool
    decreases d,
{
    match option {
        Node::Rule(r) => match rules(r.name@) {
            Ok(node) => d > 0 ==> map_option_restores((d - 1) as nat, node, stock, rules),
            Err(_) => true,
        },
        _ => option is KeyValue || option is Group && keys_ascending(stock),
    }
}

/// Such an option takes nothing if it fails.
pub proof fn lemma_map_option_restores(d: nat, option: Node, stock: Entries, rules: Rules)
    requires
        map_option_restores(d, option, stock, rules),
    ensures
        map_member(d, option, stock, rules) matches Some(run) ==> run.verdict is Err ==> run
            == idle(run.verdict, stock),
    decreases d,
{
    if d > 0 {
        let e = (d - 1) as nat;
        match option {
            Node::Rule(r) => if let Ok(node) = rules(r.name@) {
                lemma_map_option_restores(e, node, stock, rules);
            },
            Node::Group(g) => lemma_failed_group_restores_map(d, g, stock, rules),
            Node::KeyValue(kv) => {
                assert(map_member(d, option, stock, rules) == map_keyvalue(e, kv, stock, rules));
            },
            _ => {},
        }
    }
}

/// In a choice among such options, the first that does not pass on decides, and if all pass on,
/// nothing is taken.
pub proof fn lemma_map_choice_among(
    d: nat,
    c: Choice,
    k: int,
    stock: Entries,
    rules: Rules,
)
    requires
        0 <= k <= c.options@.len(),
        forall|j: int|
            0 <= j < k ==> map_option_restores(d, #[trigger] c.options@[j], stock, rules),
        forall|j: int|
            0 <= j < k ==> map_passes_on(map_member(d, #[trigger] c.options@[j], stock, rules)),
        k < c.options@.len() ==> !map_passes_on(map_member(d, c.options@[k], stock, rules)),
    ensures
        map_member(d + 1, Node::Choice(c), stock, rules) == (if k < c.options@.len() {
            map_member(d, c.options@[k], stock, rules)
        } else {
            Some(idle(expected_choice(c.options@.len()), stock))
        }),
{
    assert forall|j: int| 0 <= j < k implies map_declines(
        map_member(d, #[trigger] c.options@[j], stock, rules),
        stock,
    ) by {
        lemma_map_option_restores(d, c.options@[j], stock, rules);
    }
    lemma_map_options_from(d, c.options@, 0, k, stock, rules);
}

/// An option among the members of an array that leaves the options after it a chance: it fails, but
/// not with a fatal error.
pub open spec fn array_passes_on(run: Option<Run<ValueView>>) -> bool {
    match run {
        Some(r) => r.verdict matches Err(e) && !e.is_fatal(),
        None => false,
    }
}

/// An option that leaves the options after it a chance, and everything that it found.
pub open spec fn array_declines(run: Option<Run<ValueView>>, items: Seq<ValueView>) -> bool {
    array_passes_on(run) && run->Some_0 == idle(run->Some_0.verdict, items)
}

proof fn lemma_array_options_from(
    d: nat,
    options: Seq<Node>,
    i: int,
    k: int,
    items: Seq<ValueView>,
    rules: Rules,
)
    requires
        0 <= i <= k <= options.len(),
        forall|j: int|
            0 <= j < k ==> array_declines(
                array_member(d, #[trigger] options[j], items, rules),
                items,
            ),
        k < options.len() ==> !array_passes_on(array_member(d, options[k], items, rules)),
    ensures
        array_options(d, options, i, items, rules) == (if k < options.len() {
            array_member(d, options[k], items, rules)
        } else {
            Some(idle(expected_choice(options.len()), items))
        }),
    decreases k - i,
{
    if i < k {
        lemma_array_options_from(d, options, i + 1, k, items, rules);
        assert(array_declines(array_member(d, options[i], items, rules), items));
        let run = array_member(d, options[i], items, rules)->Some_0;
        lemma_resumed_idle(
            run.verdict,
            items,
            array_options(d, options, i + 1, items, rules),
        );
    }
}

/// In a choice among the members of an array, the first option that matches or fails with a fatal
/// error decides, where those before it leave everything as they found it: the choice gives its
/// verdict, and takes what it takes.
pub proof fn lemma_array_choice_decided(
    d: nat,
    c: Choice,
    k: int,
    items: Seq<ValueView>,
    rules: Rules,
)
    requires
        0 <= k < c.options@.len(),
        forall|j: int|
            0 <= j < k ==> array_declines(
                array_member(d, #[trigger] c.options@[j], items, rules),
                items,
            ),
        !array_passes_on(array_member(d, c.options@[k], items, rules)),
    ensures
        array_member(d + 1, Node::Choice(c), items, rules) == array_member(
            d,
            c.options@[k],
            items,
            rules,
        ),
{
    lemma_array_options_from(d, c.options@, 0, k, items, rules);
}

/// If all of the options decline, the choice says how many there were, and takes nothing.
pub proof fn lemma_array_choice_exhausted(d: nat, c: Choice, items: Seq<ValueView>, rules: Rules)
    requires
        forall|j: int|
            0 <= j < c.options@.len() ==> array_declines(
                array_member(d, #[trigger] c.options@[j], items, rules),
                items,
            ),
    ensures
        array_member(d + 1, Node::Choice(c), items, rules) == Some(
            idle(expected_choice(c.options@.len()), items),
        ),
{
    lemma_array_options_from(d, c.options@, 0, c.options@.len() as int, items, rules);
}

/// An option that takes nothing if it fails: one that takes a single item, a group, or a rule that
/// stands for one of them.
pub open spec fn array_option_restores(d: nat, option: Node, rules: Rules) -> bool
    decreases d,
{
    match option {
        Node::Rule(r) => match rules(r.name@) {
            Ok(node) => d > 0 ==> array_option_restores((d - 1) as nat, node, rules),
            Err(_) => true,
        },
        _ => item_node(option) is Some || option is Group,
    }
}

/// Such an option takes nothing if it fails.
pub proof fn lemma_array_option_restores(d: nat, option: Node, items: Seq<ValueView>, rules: Rules)
    requires
        array_option_restores(d, option, rules),
    ensures
        array_member(d, option, items, rules) matches Some(run) ==> run.verdict is Err ==> run
            == idle(run.verdict, items),
    decreases d,
{
    if d > 0 {
        let e = (d - 1) as nat;
        match option {
            Node::Rule(r) => if let Ok(node) = rules(r.name@) {
                lemma_array_option_restores(e, node, items, rules);
            },
            Node::Group(g) => lemma_failed_group_restores_array(d, g, items, rules),
            _ => {
                let n = item_node(option)->Some_0;
                assert(array_member(d, option, items, rules) == array_value(e, n, items, rules));
            },
        }
    }
}

/// In a choice among such options, the first that does not pass on decides, and if all pass on,
/// nothing is taken.
pub proof fn lemma_array_choice_among(
    d: nat,
    c: Choice,
    k: int,
    items: Seq<ValueView>,
    rules: Rules,
)
    requires
        0 <= k <= c.options@.len(),
        forall|j: int|
            0 <= j < k ==> array_option_restores(d, #[trigger] c.options@[j], rules),
        forall|j: int|
            0 <= j < k ==> array_passes_on(array_member(d, #[trigger] c.options@[j], items, rules)),
        k < c.options@.len() ==> !array_passes_on(array_member(d, c.options@[k], items, rules)),
    ensures
        array_member(d + 1, Node::Choice(c), items, rules) == (if k < c.options@.len() {
            array_member(d, c.options@[k], items, rules)
        } else {
            Some(idle(expected_choice(c.options@.len()), items))
        }),
{
    assert forall|j: int| 0 <= j < k implies array_declines(
        array_member(d, #[trigger] c.options@[j], items, rules),
        items,
    ) by {
        lemma_array_option_restores(d, c.options@[j], items, rules);
    }
    lemma_array_options_from(d, c.options@, 0, k, items, rules);
}

} // verus!
