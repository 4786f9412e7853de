//! Markdown to inline decoration trees: pulldown-cmark produces the event
//! stream, and a verified stack machine folds it into nested nodes.

use vstd::prelude::*;
use pulldown_cmark::{Event, Options, Parser, Tag};
use crate::ast::{
    lemma_nodes_view_concat, lemma_nodes_view_single, node_view, nodes_view, DecoNode,
    InlineDecorationNode,
};
use crate::text::{decimal, decimal_value, lemma_decimal_reads_back, push_decimal, string_from_chars};
use vstd::set_lib::{lemma_int_range, lemma_len_subset, lemma_subset_equality, set_int_range};

verus! {

/// The parser events that decide the decoration tree.
pub enum MdEvent {
    StartBold,
    StartItalic,
    StartLink { dest: String },
    StartOther,
    End,
    Text { text: String },
    Code { text: String },
    Break,
    Other,
}

/// Mathematical model of an [`MdEvent`].
pub enum MdEventModel {
    StartBold,
    StartItalic,
    StartLink { dest: Seq<char> },
    StartOther,
    End,
    Text { text: Seq<char> },
    Code { text: Seq<char> },
    Break,
    Other,
}

impl DeepView for MdEvent {
    type V = MdEventModel;

    open spec fn deep_view(&self) -> MdEventModel {
        match self {
            MdEvent::StartBold => MdEventModel::StartBold,
            MdEvent::StartItalic => MdEventModel::StartItalic,
            MdEvent::StartLink { dest } => MdEventModel::StartLink { dest: dest@ },
            MdEvent::StartOther => MdEventModel::StartOther,
            MdEvent::End => MdEventModel::End,
            MdEvent::Text { text } => MdEventModel::Text { text: text@ },
            MdEvent::Code { text } => MdEventModel::Code { text: text@ },
            MdEvent::Break => MdEventModel::Break,
            MdEvent::Other => MdEventModel::Other,
        }
    }
}

/// How an event changes the number of open elements.
pub open spec fn depth_step(ev: MdEventModel) -> int {
    match ev {
        MdEventModel::StartBold | MdEventModel::StartItalic | MdEventModel::StartLink { .. }
        | MdEventModel::StartOther => 1,
        MdEventModel::End => -1,
        _ => 0,
    }
}

/// The number of elements open after the first `n` events.
pub open spec fn open_depth(events: Seq<MdEventModel>, n: nat) -> int
    decreases n,
{
    if n == 0 || n > events.len() {
        0
    } else {
        open_depth(events, (n - 1) as nat) + depth_step(events[n - 1])
    }
}

/// Start and end events are balanced: no end closes more than was opened,
/// and everything opened is closed at the end.
pub open spec fn balanced(events: Seq<MdEventModel>) -> bool {
    &&& forall|n: nat| n <= events.len() ==> #[trigger] open_depth(events, n) >= 0
    &&& open_depth(events, events.len()) == 0
}

/// The event stream that pulldown-cmark, with strikethrough enabled, produces
/// for a Markdown text.
pub uninterp spec fn markdown_events(markdown: Seq<char>) -> Seq<MdEventModel>;

/// Trusted: runs `pulldown_cmark::Parser::new_ext` with
/// `Options::ENABLE_STRIKETHROUGH` over `markdown` and converts each event in
/// order: strong/emphasis/link starts (the link's destination URL), other
/// starts, ends, text, inline code, soft and hard breaks, everything else.
/// Claims that the result is the named event stream of the text, and that
/// its start and end events are balanced, as pulldown-cmark documents for
/// `Event::Start`.
#[verifier::external_body]
fn markdown_event_stream(markdown: &str) -> (events: Vec<MdEvent>)
    ensures
        events.deep_view() == markdown_events(markdown@),
        balanced(events.deep_view()),
{
    let mut out = Vec::new();
    for event in Parser::new_ext(markdown, Options::ENABLE_STRIKETHROUGH) {
        out.push(match event {
            Event::Start(Tag::Strong) => MdEvent::StartBold,
            Event::Start(Tag::Emphasis) => MdEvent::StartItalic,
            Event::Start(Tag::Link { dest_url, .. }) => MdEvent::StartLink { dest: dest_url.into_string() },
            Event::Start(_) => MdEvent::StartOther,
            Event::End(_) => MdEvent::End,
            Event::Text(t) => MdEvent::Text { text: t.into_string() },
            Event::Code(t) => MdEvent::Code { text: t.into_string() },
            Event::SoftBreak | Event::HardBreak => MdEvent::Break,
            _ => MdEvent::Other,
        });
    }
    out
}

/// An element under construction on the builder's stack.
pub enum ActiveNode {
    Root,
    Bold,
    Italic,
    Link(String),
    Other,
}

/// Model of an [`ActiveNode`].
pub enum Frame {
    Root,
    Bold,
    Italic,
    Link { href: Seq<char> },
    Other,
}

pub open spec fn frame_of(a: ActiveNode) -> Frame {
    match a {
        ActiveNode::Root => Frame::Root,
        ActiveNode::Bold => Frame::Bold,
        ActiveNode::Italic => Frame::Italic,
        ActiveNode::Link(h) => Frame::Link { href: h@ },
        ActiveNode::Other => Frame::Other,
    }
}

/// State of the tree builder: open elements with the children collected so
/// far, and the number of keys handed out.
pub struct BuildState {
    pub stack: Seq<(Frame, Seq<DecoNode>)>,
    pub next_key: nat,
}

/// The key of the `n`-th created node: `k` followed by `n` in decimal.
pub open spec fn key_name(n: nat) -> Seq<char> {
    seq!['k'] + decimal(n)
}

/// Appends `nodes` to the children of the innermost open element.
pub open spec fn add_to_top(stack: Seq<(Frame, Seq<DecoNode>)>, nodes: Seq<DecoNode>) -> Seq<
    (Frame, Seq<DecoNode>),
> {
    stack.drop_last().push((stack.last().0, stack.last().1 + nodes))
}

pub open spec fn open_frame(st: BuildState, f: Frame) -> BuildState {
    BuildState { stack: st.stack.push((f, Seq::empty())), next_key: st.next_key }
}

/// Closes the innermost element: bold, italic and link become nodes (taking
/// the next key); any other element hands its children to its parent. The
/// root is never closed.
pub open spec fn close_frame(st: BuildState) -> BuildState {
    if st.stack.len() > 1 {
        let f = st.stack.last().0;
        let children = st.stack.last().1;
        let rest = st.stack.drop_last();
        let k = key_name(st.next_key);
        match f {
            Frame::Bold => BuildState {
                stack: add_to_top(rest, seq![DecoNode::Bold { key: k, children }]),
                next_key: st.next_key + 1,
            },
            Frame::Italic => BuildState {
                stack: add_to_top(rest, seq![DecoNode::Italic { key: k, children }]),
                next_key: st.next_key + 1,
            },
            Frame::Link { href } => BuildState {
                stack: add_to_top(rest, seq![DecoNode::Link { key: k, href, children }]),
                next_key: st.next_key + 1,
            },
            _ => BuildState { stack: add_to_top(rest, children), next_key: st.next_key },
        }
    } else {
        st
    }
}

/// Adds a leaf text node to the innermost element.
pub open spec fn add_text(st: BuildState, text: Seq<char>) -> BuildState {
    BuildState {
        stack: add_to_top(st.stack, seq![DecoNode::Text { key: key_name(st.next_key), text }]),
        next_key: st.next_key + 1,
    }
}

/// One event applied to the builder.
pub open spec fn build_step(st: BuildState, ev: MdEventModel) -> BuildState {
    match ev {
        MdEventModel::StartBold => open_frame(st, Frame::Bold),
        MdEventModel::StartItalic => open_frame(st, Frame::Italic),
        MdEventModel::StartLink { dest } => open_frame(st, Frame::Link { href: dest }),
        MdEventModel::StartOther => open_frame(st, Frame::Other),
        MdEventModel::End => close_frame(st),
        MdEventModel::Text { text } => add_text(st, text),
        MdEventModel::Code { text } => BuildState {
            stack: add_to_top(
                st.stack,
                seq![
                    DecoNode::Code {
                        key: key_name(st.next_key),
                        children: seq![DecoNode::Text { key: key_name(st.next_key + 1), text }],
                    },
                ],
            ),
            next_key: st.next_key + 2,
        },
        MdEventModel::Break => add_text(st, seq!['\n']),
        MdEventModel::Other => st,
    }
}

pub open spec fn initial_build_state() -> BuildState {
    BuildState { stack: seq![(Frame::Root, Seq::empty())], next_key: 0 }
}

/// The builder after the first `n` events.
pub open spec fn build_prefix(events: Seq<MdEventModel>, n: nat) -> BuildState
    decreases n,
{
    if n == 0 || n > events.len() {
        initial_build_state()
    } else {
        build_step(build_prefix(events, (n - 1) as nat), events[n - 1])
    }
}

/// The decoration tree built from an event stream: the children collected in
/// the innermost element once every event has been applied.
pub open spec fn spec_decorations(events: Seq<MdEventModel>) -> Seq<DecoNode> {
    build_prefix(events, events.len()).stack.last().1
}

pub open spec fn stack_model(s: Seq<(ActiveNode, Vec<InlineDecorationNode>)>) -> Seq<
    (Frame, Seq<DecoNode>),
> {
    Seq::new(s.len(), |i: int| (frame_of(s[i].0), nodes_view(s[i].1@)))
}

fn key_string(n: u128) -> (s: String)
    ensures
        s@ == key_name(n as nat),
{
    let mut v: Vec<char> = Vec::new();
    v.push('k');
    push_decimal(&mut v, n);
    string_from_chars(&v)
}

/// Appends `nodes` to the children of the top of the stack.
fn push_to_top(stack: &mut Vec<(ActiveNode, Vec<InlineDecorationNode>)>, nodes: Vec<InlineDecorationNode>)
    requires
        old(stack).len() >= 1,
    ensures
        final(stack).len() == old(stack).len(),
        stack_model(final(stack)@) == add_to_top(stack_model(old(stack)@), nodes_view(nodes@)),
{
    let ghost old_model = stack_model(stack@);
    let (a, mut children) = stack.pop().unwrap();
    let ghost old_children = children@;
    let mut nodes = nodes;
    let ghost added = nodes@;
    children.append(&mut nodes);
    proof {
        lemma_nodes_view_concat(old_children, added);
    }
    stack.push((a, children));
    assert(stack_model(stack@) =~= add_to_top(old_model, nodes_view(added)));
}

fn one_node(n: InlineDecorationNode) -> (v: Vec<InlineDecorationNode>)
    ensures
        v@ == seq![n],
        nodes_view(v@) == seq![node_view(n)],
{
    let ghost g = n;
    let mut v = Vec::new();
    v.push(n);
    proof {
        assert(v@ =~= seq![g]);
        lemma_nodes_view_single(g);
    }
    v
}

/// Folds a parser event stream into a decoration tree.
///
/// Bold, italic and link elements become nodes whose children are what the
/// element contained; other elements contribute their children directly.
/// Keys are `k0`, `k1`, ... in the order in which nodes are created.
pub fn decorations_from_events(events: &Vec<MdEvent>) -> (res: Vec<InlineDecorationNode>)
    ensures
        nodes_view(res@) == spec_decorations(events.deep_view()),
{
    let ghost evs = events.deep_view();
    let mut stack: Vec<(ActiveNode, Vec<InlineDecorationNode>)> = Vec::new();
    stack.push((ActiveNode::Root, Vec::new()));
    let mut counter: u128 = 0;
    let mut i: usize = 0;
    assert(stack_model(stack@) =~= initial_build_state().stack);
    while i < events.len()
        invariant
            evs == events.deep_view(),
            evs.len() == events.len(),
            i <= events.len(),
            stack.len() >= 1,
            stack_model(stack@) == build_prefix(evs, i as nat).stack,
            counter == build_prefix(evs, i as nat).next_key,
            counter <= 2 * i,
        decreases events.len() - i,
    {
        let ghost st = build_prefix(evs, i as nat);
        assert(build_prefix(evs, (i + 1) as nat) == build_step(st, evs[i as int]));
        assert(evs[i as int] == events@[i as int].deep_view());
        match &events[i] {
            MdEvent::StartBold => {
                stack.push((ActiveNode::Bold, Vec::new()));
                assert(stack_model(stack@) =~= open_frame(st, Frame::Bold).stack);
            },
            MdEvent::StartItalic => {
                stack.push((ActiveNode::Italic, Vec::new()));
                assert(stack_model(stack@) =~= open_frame(st, Frame::Italic).stack);
            },
            MdEvent::StartLink { dest } => {
                stack.push((ActiveNode::Link(dest.clone()), Vec::new()));
                assert(stack_model(stack@) =~= open_frame(st, Frame::Link { href: dest@ }).stack);
            },
            MdEvent::StartOther => {
                stack.push((ActiveNode::Other, Vec::new()));
                assert(stack_model(stack@) =~= open_frame(st, Frame::Other).stack);
            },
            MdEvent::End => {
                if stack.len() > 1 {
                    let ghost before = stack@;
                    let (active, children) = stack.pop().unwrap();
                    assert(stack_model(stack@) =~= st.stack.drop_last());
                    assert(st.stack.last() == (frame_of(active), nodes_view(children@)));
                    match active {
                        ActiveNode::Bold => {
                            let key = key_string(counter);
                            push_to_top(
                                &mut stack,
                                one_node(InlineDecorationNode::Bold { key, children }),
                            );
                            counter = counter + 1;
                            assert(stack_model(stack@) == build_step(st, evs[i as int]).stack);
                        },
                        ActiveNode::Italic => {
                            let key = key_string(counter);
                            push_to_top(
                                &mut stack,
                                one_node(InlineDecorationNode::Italic { key, children }),
                            );
                            counter = counter + 1;
                            assert(stack_model(stack@) == build_step(st, evs[i as int]).stack);
                        },
                        ActiveNode::Link(href) => {
                            let key = key_string(counter);
                            push_to_top(
                                &mut stack,
                                one_node(InlineDecorationNode::Link { key, href, children }),
                            );
                            counter = counter + 1;
                            assert(stack_model(stack@) == build_step(st, evs[i as int]).stack);
                        },
                        _ => {
                            push_to_top(&mut stack, children);
                            assert(stack_model(stack@) == build_step(st, evs[i as int]).stack);
                        },
                    }
                }
            },
            MdEvent::Text { text } => {
                let key = key_string(counter);
                push_to_top(
                    &mut stack,
                    one_node(InlineDecorationNode::Text { key, text: text.clone() }),
                );
                counter = counter + 1;
                assert(stack_model(stack@) == build_step(st, evs[i as int]).stack);
            },
            MdEvent::Code { text } => {
                let outer = key_string(counter);
                let inner = key_string(counter + 1);
                let leaf = one_node(InlineDecorationNode::Text { key: inner, text: text.clone() });
                push_to_top(&mut stack, one_node(InlineDecorationNode::Code { key: outer, children: leaf }));
                counter = counter + 2;
                assert(stack_model(stack@) == build_step(st, evs[i as int]).stack);
            },
            MdEvent::Break => {
                let key = key_string(counter);
                let mut nlv: Vec<char> = Vec::new();
                nlv.push('\n');
                assert(nlv@ =~= seq!['\n']);
                let nl = string_from_chars(&nlv);
                push_to_top(&mut stack, one_node(InlineDecorationNode::Text { key, text: nl }));
                counter = counter + 1;
                assert(stack_model(stack@) == build_step(st, evs[i as int]).stack);
            },
            MdEvent::Other => {},
        }
        assert(stack_model(stack@) == build_step(st, evs[i as int]).stack);
        i = i + 1;
    }
    let (_, top) = stack.pop().unwrap();
    top
}

/// Parses Markdown text into a tree of inline decoration nodes.
///
/// Nodes get fresh sequential keys `k0`, `k1`, ...
pub fn parse_markdown_to_decorations(markdown: &str) -> (res: Vec<InlineDecorationNode>)
    ensures
        nodes_view(res@) == spec_decorations(markdown_events(markdown@)),
        keys_sequential(forest_keys(nodes_view(res@))),
{
    let events = markdown_event_stream(markdown);
    proof {
        law_balanced_keys_sequential(events.deep_view());
    }
    decorations_from_events(&events)
}

// ─── Keys ────────────────────────────────────────────────────────────────────

/// The keys of a node and of everything under it, the node's own first.
pub open spec fn node_keys(n: DecoNode) -> Seq<Seq<char>>
    decreases n,
{
    match n {
        DecoNode::Text { key, .. } => seq![key],
        DecoNode::Bold { key, children } => seq![key] + forest_keys(children),
        DecoNode::Italic { key, children } => seq![key] + forest_keys(children),
        DecoNode::Code { key, children } => seq![key] + forest_keys(children),
        DecoNode::Link { key, children, .. } => seq![key] + forest_keys(children),
    }
}

/// The keys of a sequence of trees, tree after tree.
pub open spec fn forest_keys(s: Seq<DecoNode>) -> Seq<Seq<char>>
    decreases s,
{
    if s.len() == 0 {
        Seq::empty()
    } else {
        forest_keys(s.subrange(0, s.len() - 1)) + node_keys(s[s.len() - 1])
    }
}

/// No key occurs twice.
pub open spec fn no_dup(keys: Seq<Seq<char>>) -> bool {
    forall|i: int, j: int| 0 <= i < keys.len() && 0 <= j < keys.len() && i != j ==> keys[i] != keys[j]
}

/// The number in a key `k<number>`.
pub open spec fn key_number(key: Seq<char>) -> nat {
    decimal_value(key.skip(1))
}

/// Every key is `k` followed by a number below `bound`.
pub open spec fn keys_below(keys: Seq<Seq<char>>, bound: nat) -> bool {
    forall|i: int|
        0 <= i < keys.len() ==> key_number(#[trigger] keys[i]) < bound && keys[i] == key_name(
            key_number(keys[i]),
        )
}

/// The keys of everything on the builder's stack, bottom first.
pub open spec fn stack_keys(stack: Seq<(Frame, Seq<DecoNode>)>) -> Seq<Seq<char>>
    decreases stack.len(),
{
    if stack.len() == 0 {
        Seq::empty()
    } else {
        stack_keys(stack.drop_last()) + forest_keys(stack.last().1)
    }
}

proof fn lemma_forest_keys_concat(a: Seq<DecoNode>, b: Seq<DecoNode>)
    ensures
        forest_keys(a + b) == forest_keys(a) + forest_keys(b),
    decreases b.len(),
{
    if b.len() == 0 {
        assert(a + b =~= a);
        assert(forest_keys(a) + forest_keys(b) =~= forest_keys(a));
    } else {
        let b1 = b.subrange(0, b.len() - 1);
        lemma_forest_keys_concat(a, b1);
        assert((a + b).subrange(0, (a + b).len() - 1) =~= a + b1);
        assert(forest_keys(a + b) =~= forest_keys(a) + forest_keys(b));
    }
}

proof fn lemma_forest_keys_single(n: DecoNode)
    ensures
        forest_keys(seq![n]) == node_keys(n),
{
    reveal_with_fuel(forest_keys, 2);
    assert(seq![n].subrange(0, 0) =~= Seq::<DecoNode>::empty());
    assert(forest_keys(seq![n]) =~= node_keys(n));
}

proof fn lemma_stack_keys_add(stack: Seq<(Frame, Seq<DecoNode>)>, nodes: Seq<DecoNode>)
    requires
        stack.len() >= 1,
    ensures
        stack_keys(add_to_top(stack, nodes)) == stack_keys(stack) + forest_keys(nodes),
{
    let s2 = add_to_top(stack, nodes);
    assert(s2.drop_last() =~= stack.drop_last());
    lemma_forest_keys_concat(stack.last().1, nodes);
    assert(stack_keys(s2) =~= stack_keys(stack) + forest_keys(nodes));
}

/// A key's number reads back from the key.
pub proof fn lemma_key_number(m: nat)
    ensures
        key_number(key_name(m)) == m,
{
    lemma_decimal_reads_back(m);
    assert(key_name(m).skip(1) =~= decimal(m));
}

/// Appending keys `bound`, `bound + 1`, ... below `bound + n` to keys below
/// `bound` without repeats keeps them without repeats.
proof fn lemma_fresh_keys(old_keys: Seq<Seq<char>>, bound: nat, fresh: Seq<Seq<char>>, n: nat)
    requires
        no_dup(old_keys),
        keys_below(old_keys, bound),
        fresh.len() == n,
        forall|i: int| 0 <= i < n ==> fresh[i] == key_name((bound + i) as nat),
    ensures
        no_dup(old_keys + fresh),
        keys_below(old_keys + fresh, bound + n),
{
    let all = old_keys + fresh;
    assert forall|i: int| 0 <= i < n implies #[trigger] key_number(fresh[i]) == bound + i by {
        lemma_key_number((bound + i) as nat);
    }
    assert forall|i: int, j: int| 0 <= i < all.len() && 0 <= j < all.len() && i != j implies all[i]
        != all[j] by {
        if i >= old_keys.len() && j >= old_keys.len() {
            assert(key_number(fresh[i - old_keys.len()]) != key_number(fresh[j - old_keys.len()]));
        } else if i < old_keys.len() && j >= old_keys.len() {
            assert(key_number(old_keys[i]) < bound);
            assert(key_number(fresh[j - old_keys.len()]) >= bound);
        } else if j < old_keys.len() && i >= old_keys.len() {
            assert(key_number(old_keys[j]) < bound);
            assert(key_number(fresh[i - old_keys.len()]) >= bound);
        }
    }
    assert forall|i: int| 0 <= i < all.len() implies key_number(#[trigger] all[i]) < bound + n
        && all[i] == key_name(key_number(all[i])) by {
        if i < old_keys.len() {
            assert(all[i] == old_keys[i]);
        } else {
            assert(all[i] == fresh[i - old_keys.len()]);
            assert(key_number(fresh[i - old_keys.len()]) == bound + i - old_keys.len());
        }
    }
}

/// Moving one fresh key to the middle keeps the keys without repeats.
proof fn lemma_move_key(a: Seq<Seq<char>>, b: Seq<Seq<char>>, k: Seq<char>, bound: nat)
    requires
        no_dup(a + b + seq![k]),
        keys_below(a + b + seq![k], bound),
    ensures
        no_dup(a + seq![k] + b),
        keys_below(a + seq![k] + b, bound),
{
    let x = a + b + seq![k];
    let y = a + seq![k] + b;
    // position of each element of y in x
    let pos = |i: int| if i < a.len() {
        i
    } else if i == a.len() {
        x.len() - 1
    } else {
        i - 1
    };
    assert forall|i: int| 0 <= i < y.len() implies y[i] == x[pos(i)] && 0 <= pos(i) < x.len() by {}
    assert forall|i: int, j: int| 0 <= i < y.len() && 0 <= j < y.len() && i != j implies y[i] != y[j] by {
        assert(y[i] == x[pos(i)] && y[j] == x[pos(j)]);
        assert(pos(i) != pos(j));
    }
    assert forall|i: int| 0 <= i < y.len() implies key_number(#[trigger] y[i]) < bound && y[i] == key_name(
        key_number(y[i]),
    ) by {
        assert(y[i] == x[pos(i)]);
    }
}

/// What every builder state keeps: the root stays, and the keys on the stack
/// are distinct, all handed out already, and as many as were handed out.
pub open spec fn keys_ok(st: BuildState) -> bool {
    &&& st.stack.len() >= 1
    &&& no_dup(stack_keys(st.stack))
    &&& keys_below(stack_keys(st.stack), st.next_key)
    &&& stack_keys(st.stack).len() == st.next_key
}

/// Closing an element into a node with the next key keeps the keys right.
proof fn lemma_close_keys(st: BuildState, node: DecoNode)
    requires
        keys_ok(st),
        st.stack.len() > 1,
        node_keys(node) == seq![key_name(st.next_key)] + forest_keys(st.stack.last().1),
    ensures
        keys_ok(
            BuildState {
                stack: add_to_top(st.stack.drop_last(), seq![node]),
                next_key: st.next_key + 1,
            },
        ),
{
    let rest = st.stack.drop_last();
    let a = stack_keys(rest);
    let b = forest_keys(st.stack.last().1);
    let k = key_name(st.next_key);
    lemma_stack_keys_add(rest, seq![node]);
    lemma_forest_keys_single(node);
    lemma_fresh_keys(a + b, st.next_key, seq![k], 1);
    lemma_move_key(a, b, k, st.next_key + 1);
    assert(stack_keys(add_to_top(rest, seq![node])) =~= a + seq![k] + b);
}

proof fn lemma_build_step_keys(st: BuildState, ev: MdEventModel)
    requires
        keys_ok(st),
    ensures
        keys_ok(build_step(st, ev)),
{
    let ks = stack_keys(st.stack);
    let nk = st.next_key;
    match ev {
        MdEventModel::StartBold | MdEventModel::StartItalic | MdEventModel::StartLink { .. }
        | MdEventModel::StartOther => {
            let f = build_step(st, ev).stack.last().0;
            let s2 = st.stack.push((f, Seq::<DecoNode>::empty()));
            assert(build_step(st, ev).stack == s2);
            assert(s2.drop_last() =~= st.stack);
            assert(forest_keys(Seq::<DecoNode>::empty()) =~= Seq::<Seq<char>>::empty());
            assert(stack_keys(s2) =~= ks);
        },
        MdEventModel::Text { text } => {
            let node = DecoNode::Text { key: key_name(nk), text };
            lemma_stack_keys_add(st.stack, seq![node]);
            lemma_forest_keys_single(node);
            lemma_fresh_keys(ks, nk, seq![key_name(nk)], 1);
        },
        MdEventModel::Break => {
            let node = DecoNode::Text { key: key_name(nk), text: seq!['\n'] };
            lemma_stack_keys_add(st.stack, seq![node]);
            lemma_forest_keys_single(node);
            lemma_fresh_keys(ks, nk, seq![key_name(nk)], 1);
        },
        MdEventModel::Code { text } => {
            let leaf = DecoNode::Text { key: key_name(nk + 1), text };
            let node = DecoNode::Code { key: key_name(nk), children: seq![leaf] };
            lemma_stack_keys_add(st.stack, seq![node]);
            lemma_forest_keys_single(node);
            lemma_forest_keys_single(leaf);
            assert(node_keys(node) =~= seq![key_name(nk), key_name(nk + 1)]);
            lemma_fresh_keys(ks, nk, seq![key_name(nk), key_name(nk + 1)], 2);
        },
        MdEventModel::End => {
            if st.stack.len() > 1 {
                let f = st.stack.last().0;
                let children = st.stack.last().1;
                let rest = st.stack.drop_last();
                let k = key_name(nk);
                match f {
                    Frame::Bold => lemma_close_keys(st, DecoNode::Bold { key: k, children }),
                    Frame::Italic => lemma_close_keys(st, DecoNode::Italic { key: k, children }),
                    Frame::Link { href } => lemma_close_keys(
                        st,
                        DecoNode::Link { key: k, href, children },
                    ),
                    _ => {
                        assert(build_step(st, ev).stack == add_to_top(rest, children));
                        lemma_stack_keys_add(rest, children);
                    },
                }
            }
        },
        MdEventModel::Other => {},
    }
}

proof fn lemma_build_prefix_keys(events: Seq<MdEventModel>, n: nat)
    ensures
        keys_ok(build_prefix(events, n)),
    decreases n,
{
    if n == 0 || n > events.len() {
        let st = initial_build_state();
        assert(st.stack.drop_last() =~= Seq::<(Frame, Seq<DecoNode>)>::empty());
        assert(forest_keys(Seq::<DecoNode>::empty()) =~= Seq::<Seq<char>>::empty());
        assert(stack_keys(Seq::<(Frame, Seq<DecoNode>)>::empty()) =~= Seq::<Seq<char>>::empty());
        assert(stack_keys(st.stack) =~= Seq::<Seq<char>>::empty());
    } else {
        lemma_build_prefix_keys(events, (n - 1) as nat);
        lemma_build_step_keys(build_prefix(events, (n - 1) as nat), events[n - 1]);
    }
}

/// Every node of a decoration tree built from any event stream has a key of
/// its own, and each key is `k` followed by a decimal number.
pub proof fn law_keys_distinct(events: Seq<MdEventModel>)
    ensures
        no_dup(forest_keys(spec_decorations(events))),
        forall|i: int|
            0 <= i < forest_keys(spec_decorations(events)).len() ==> #[trigger] forest_keys(
                spec_decorations(events),
            )[i] == key_name(key_number(forest_keys(spec_decorations(events))[i])),
{
    let st = build_prefix(events, events.len());
    lemma_build_prefix_keys(events, events.len());
    let a = stack_keys(st.stack.drop_last());
    let b = forest_keys(st.stack.last().1);
    assert(stack_keys(st.stack) == a + b);
    assert(spec_decorations(events) == st.stack.last().1);
    assert forall|i: int| 0 <= i < b.len() implies #[trigger] b[i] == key_name(key_number(b[i])) by {
        assert(b[i] == (a + b)[a.len() + i]);
    }
    assert forall|i: int, j: int| 0 <= i < b.len() && 0 <= j < b.len() && i != j implies b[i] != b[j] by {
        assert(b[i] == (a + b)[a.len() + i]);
        assert(b[j] == (a + b)[a.len() + j]);
    }
}

/// Every element opened in the event stream has been closed again: only the
/// root is left open once all events are applied.
pub open spec fn all_closed(events: Seq<MdEventModel>) -> bool {
    build_prefix(events, events.len()).stack.len() == 1
}

/// Keys `k<m>` for distinct numbers, all below their count, include every
/// number below it.
proof fn lemma_keys_cover(keys: Seq<Seq<char>>)
    requires
        no_dup(keys),
        keys_below(keys, keys.len()),
    ensures
        forall|m: nat| m < keys.len() ==> #[trigger] keys.contains(key_name(m)),
{
    let nums = Seq::new(keys.len(), |i: int| key_number(keys[i]) as int);
    assert(nums.no_duplicates()) by {
        assert forall|i: int, j: int| 0 <= i < nums.len() && 0 <= j < nums.len() && i != j implies nums[i]
            != nums[j] by {
            assert(keys[i] == key_name(key_number(keys[i])));
            assert(keys[j] == key_name(key_number(keys[j])));
        }
    }
    nums.unique_seq_to_set();
    let range = set_int_range(0, keys.len() as int);
    lemma_int_range(0, keys.len() as int);
    assert(nums.to_set().subset_of(range)) by {
        assert forall|x: int| nums.to_set().contains(x) implies range.contains(x) by {
            let i = choose|i: int| 0 <= i < nums.len() && nums[i] == x;
            assert(key_number(keys[i]) < keys.len());
        }
    }
    lemma_len_subset(nums.to_set(), range);
    lemma_subset_equality(nums.to_set(), range);
    assert forall|m: nat| m < keys.len() implies #[trigger] keys.contains(key_name(m)) by {
        assert(range.contains(m as int));
        assert(nums.to_set().contains(m as int));
        let i = choose|i: int| 0 <= i < nums.len() && nums[i] == m as int;
        assert(keys[i] == key_name(key_number(keys[i])));
    }
}

/// The keys are exactly `k0`, `k1`, ... up to one less than their number,
/// each once.
pub open spec fn keys_sequential(keys: Seq<Seq<char>>) -> bool {
    &&& no_dup(keys)
    &&& forall|i: int| 0 <= i < keys.len() ==> key_number(#[trigger] keys[i]) < keys.len()
        && keys[i] == key_name(key_number(keys[i]))
    &&& forall|m: nat| m < keys.len() ==> #[trigger] keys.contains(key_name(m))
}

/// Once every opened element has been closed, the keys of the tree are
/// exactly `k0`, `k1`, ... up to one less than the number of nodes.
pub proof fn law_keys_sequential(events: Seq<MdEventModel>)
    requires
        all_closed(events),
    ensures
        keys_sequential(forest_keys(spec_decorations(events))),
{
    let st = build_prefix(events, events.len());
    lemma_build_prefix_keys(events, events.len());
    assert(st.stack.drop_last() =~= Seq::<(Frame, Seq<DecoNode>)>::empty());
    assert(stack_keys(Seq::<(Frame, Seq<DecoNode>)>::empty()) =~= Seq::<Seq<char>>::empty());
    let keys = forest_keys(st.stack.last().1);
    assert(stack_keys(st.stack) =~= keys);
    assert(spec_decorations(events) == st.stack.last().1);
    lemma_keys_cover(keys);
}

/// The builder has one frame for the root and one for each open element.
proof fn lemma_stack_depth(events: Seq<MdEventModel>, n: nat)
    requires
        n <= events.len(),
        forall|k: nat| k <= n ==> #[trigger] open_depth(events, k) >= 0,
    ensures
        build_prefix(events, n).stack.len() == 1 + open_depth(events, n),
    decreases n,
{
    if n > 0 {
        assert(open_depth(events, (n - 1) as nat) >= 0);
        assert(open_depth(events, n) >= 0);
        lemma_stack_depth(events, (n - 1) as nat);
    }
}

/// Balanced events leave only the root open.
pub proof fn lemma_balanced_all_closed(events: Seq<MdEventModel>)
    requires
        balanced(events),
    ensures
        all_closed(events),
{
    lemma_stack_depth(events, events.len());
}

/// For balanced events, as every parse gives, the keys of the tree are
/// exactly `k0`, `k1`, ... up to one less than the number of nodes.
pub proof fn law_balanced_keys_sequential(events: Seq<MdEventModel>)
    requires
        balanced(events),
    ensures
        keys_sequential(forest_keys(spec_decorations(events))),
{
    lemma_balanced_all_closed(events);
    law_keys_sequential(events);
}

} // verus!
