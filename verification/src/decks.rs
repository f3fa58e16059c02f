//! The deck list of the home screen.
//!
//! The decks form a tree. It is listed depth first: the deck `uni` first among
//! those at the top, the others in alphabetical order without regard to case, each
//! deck directly followed by its subdecks. Rows below a collapsed deck are hidden.

use std::collections::HashSet;

use vstd::prelude::*;

use crate::text::{before, chars_of, comes_before, copy_of, lower, lowercase, same_text};
use crate::text::{lemma_before_total, lemma_before_transitive};

verus! {

/// A deck with its subdecks. The counts cover the subdecks.
pub struct DeckNode {
    pub deck_id: i64,
    /// The last component of the deck's name.
    pub name: String,
    pub collapsed: bool,
    pub new_count: u32,
    pub learn_count: u32,
    pub review_count: u32,
    pub children: Vec<DeckNode>,
}

/// A row of the deck list.
#[derive(Debug)]
pub struct DeckInfo {
    pub id: i64,
    /// The last component of the deck's name.
    pub name: String,
    /// Depth in the tree; the rows at the top have level 0.
    pub level: u32,
    pub has_children: bool,
    pub collapsed: bool,
    pub new: u32,
    pub learn: u32,
    pub review: u32,
}

/// What a row of the deck list says.
#[verifier::ext_equal]
pub struct DeckRow {
    pub id: i64,
    pub name: Seq<char>,
    pub level: u32,
    pub has_children: bool,
    pub collapsed: bool,
    pub new: u32,
    pub learn: u32,
    pub review: u32,
}

impl View for DeckInfo {
    type V = DeckRow;

    open spec fn view(&self) -> DeckRow {
        DeckRow {
            id: self.id,
            name: self.name@,
            level: self.level,
            has_children: self.has_children,
            collapsed: self.collapsed,
            new: self.new,
            learn: self.learn,
            review: self.review,
        }
    }
}

impl Clone for DeckInfo {
    fn clone(&self) -> (r: Self)
        ensures
            r@ == self@,
    {
        DeckInfo {
            id: self.id,
            name: copy_of(self.name.as_str()),
            level: self.level,
            has_children: self.has_children,
            collapsed: self.collapsed,
            new: self.new,
            learn: self.learn,
            review: self.review,
        }
    }
}

/// The rows that a list of decks stands for.
pub open spec fn rows(v: Seq<DeckInfo>) -> Seq<DeckRow> {
    v.map_values(|d: DeckInfo| d@)
}

// ---------------------------------------------------------------- ordering

/// The name that goes first at the top.
pub const FIRST_DECK: &'static str = "uni";

/// The deck that is left out at the top while it is empty.
pub const DEFAULT_DECK: &'static str = "Default";

/// A deck named `a` is listed before one named `b`.
pub open spec fn precedes(a: Seq<char>, b: Seq<char>, top: bool) -> bool {
    if top && (a == FIRST_DECK@) != (b == FIRST_DECK@) {
        a == FIRST_DECK@
    } else {
        before(lowercase(a), lowercase(b))
    }
}

/// The order `o` with deck `n` put in: as far back as nothing behind it has to
/// come after it.
pub open spec fn inserted(o: Seq<int>, nodes: Seq<DeckNode>, n: int, top: bool) -> Seq<int>
    decreases o.len(),
{
    if o.len() > 0 && precedes(nodes[n].name@, nodes[o.last()].name@, top) {
        inserted(o.drop_last(), nodes, n, top).push(o.last())
    } else {
        o.push(n)
    }
}

/// The order in which the first `n` decks are listed, as positions.
pub open spec fn order(nodes: Seq<DeckNode>, n: nat, top: bool) -> Seq<int>
    decreases n,
{
    if n == 0 {
        Seq::empty()
    } else {
        inserted(order(nodes, (n - 1) as nat, top), nodes, n - 1, top)
    }
}

/// The decks are in listing order at these positions; decks of equal rank keep
/// their order.
pub open spec fn in_order(o: Seq<int>, nodes: Seq<DeckNode>, top: bool) -> bool {
    forall|a: int, b: int|
        0 <= a < b < o.len() ==> {
            ||| precedes(nodes[#[trigger] o[a]].name@, nodes[#[trigger] o[b]].name@, top)
            ||| o[a] < o[b] && !precedes(nodes[o[b]].name@, nodes[o[a]].name@, top)
        }
}

/// Every position below `n` occurs exactly once.
pub open spec fn is_permutation(o: Seq<int>, n: int) -> bool {
    &&& o.len() == n
    &&& forall|a: int| 0 <= a < o.len() ==> 0 <= #[trigger] o[a] < n
    &&& forall|a: int, b: int| 0 <= a < b < o.len() ==> #[trigger] o[a] != #[trigger] o[b]
    &&& forall|i: int| 0 <= i < n ==> #[trigger] o.contains(i)
}

proof fn lemma_precedes(a: Seq<char>, b: Seq<char>, c: Seq<char>, top: bool)
    ensures
        precedes(a, b, top) ==> !precedes(b, a, top),
        precedes(a, b, top) && !precedes(c, b, top) ==> precedes(a, c, top),
        !precedes(b, a, top) && precedes(b, c, top) ==> precedes(a, c, top),
        !precedes(b, a, top) && !precedes(c, b, top) ==> !precedes(c, a, top),
{
    let (la, lb, lc) = (lowercase(a), lowercase(b), lowercase(c));
    lemma_before_total(la, lb);
    lemma_before_total(lb, lc);
    lemma_before_total(la, lc);
    if before(la, lb) && before(lb, lc) {
        lemma_before_transitive(la, lb, lc);
    }
    if before(lb, la) && before(la, lc) {
        lemma_before_transitive(lb, la, lc);
    }
    if before(la, lc) && before(lc, lb) {
        lemma_before_transitive(la, lc, lb);
    }
    if before(lc, la) && before(la, lb) {
        lemma_before_transitive(lc, la, lb);
    }
    if before(lb, lc) && before(lc, la) {
        lemma_before_transitive(lb, lc, la);
    }
    if before(lc, lb) && before(lb, la) {
        lemma_before_transitive(lc, lb, la);
    }
}

proof fn lemma_inserted(o: Seq<int>, nodes: Seq<DeckNode>, n: int, top: bool)
    requires
        is_permutation(o, n),
        in_order(o, nodes, top),
        0 <= n < nodes.len(),
    ensures
        ({
            let r = inserted(o, nodes, n, top);
            &&& r.len() == o.len() + 1
            &&& is_permutation(r, n + 1)
            &&& in_order(r, nodes, top)
        }),
{
    lemma_inserted_part(o, nodes, n, top);
    let r = inserted(o, nodes, n, top);
    assert forall|i: int| 0 <= i < n + 1 implies #[trigger] r.contains(i) by {
        if i < n {
            assert(o.contains(i));
        }
        lemma_inserted_holds(o, nodes, n, top, i);
    }
}

proof fn lemma_inserted_holds(o: Seq<int>, nodes: Seq<DeckNode>, n: int, top: bool, i: int)
    requires
        i == n || o.contains(i),
    ensures
        inserted(o, nodes, n, top).contains(i),
    decreases o.len(),
{
    let r = inserted(o, nodes, n, top);
    if o.len() > 0 && precedes(nodes[n].name@, nodes[o.last()].name@, top) {
        let front = o.drop_last();
        let rf = inserted(front, nodes, n, top);
        if i == n || front.contains(i) {
            lemma_inserted_holds(front, nodes, n, top, i);
            let k = choose|k: int| 0 <= k < rf.len() && rf[k] == i;
            assert(r[k] == i);
        } else {
            let k = choose|k: int| 0 <= k < o.len() && o[k] == i;
            assert(k == o.len() - 1) by {
                if k < o.len() - 1 {
                    assert(front[k] == i);
                }
            }
            assert(r[r.len() - 1] == i);
        }
    } else if i == n {
        assert(r[o.len() as int] == n);
    } else {
        let k = choose|k: int| 0 <= k < o.len() && o[k] == i;
        assert(r[k] == i);
    }
}

/// `lemma_inserted` for a front part of an order of `n` decks.
proof fn lemma_inserted_part(o: Seq<int>, nodes: Seq<DeckNode>, n: int, top: bool)
    requires
        forall|a: int| 0 <= a < o.len() ==> 0 <= #[trigger] o[a] < n,
        forall|a: int, b: int| 0 <= a < b < o.len() ==> #[trigger] o[a] != #[trigger] o[b],
        in_order(o, nodes, top),
        0 <= n < nodes.len(),
    ensures
        ({
            let r = inserted(o, nodes, n, top);
            &&& r.len() == o.len() + 1
            &&& forall|a: int| 0 <= a < r.len() ==> 0 <= #[trigger] r[a] < n + 1
            &&& forall|a: int, b: int| 0 <= a < b < r.len() ==> #[trigger] r[a] != #[trigger] r[b]
            &&& forall|a: int|
                0 <= a < r.len() ==> #[trigger] r[a] == n || exists|k: int|
                    0 <= k < o.len() && #[trigger] o[k] == r[a]
            &&& in_order(r, nodes, top)
        }),
    decreases o.len(),
{
    let r = inserted(o, nodes, n, top);
    let name = nodes[n].name@;
    if o.len() > 0 && precedes(name, nodes[o.last()].name@, top) {
        let front = o.drop_last();
        assert forall|a: int| 0 <= a < front.len() implies 0 <= #[trigger] front[a] < n by {
            assert(front[a] == o[a]);
        }
        assert forall|a: int, b: int| 0 <= a < b < front.len() implies #[trigger] front[a]
            != #[trigger] front[b] by {
            assert(o[a] != o[b]);
        }
        assert(in_order(front, nodes, top)) by {
            assert forall|a: int, b: int| 0 <= a < b < front.len() implies {
                ||| precedes(
                    nodes[#[trigger] front[a]].name@,
                    nodes[#[trigger] front[b]].name@,
                    top,
                )
                ||| front[a] < front[b] && !precedes(
                    nodes[front[b]].name@,
                    nodes[front[a]].name@,
                    top,
                )
            } by {
                assert(front[a] == o[a] && front[b] == o[b]);
            }
        }
        lemma_inserted_part(front, nodes, n, top);
        let rf = inserted(front, nodes, n, top);
        let last = o.len() - 1;
        assert forall|a: int| 0 <= a < r.len() implies #[trigger] r[a] == n || exists|k: int|
            0 <= k < o.len() && #[trigger] o[k] == r[a] by {
            if a < rf.len() {
                if rf[a] != n {
                    let k = choose|k: int| 0 <= k < front.len() && #[trigger] front[k] == rf[a];
                    assert(o[k] == r[a]);
                }
            } else {
                assert(o[last] == r[a]);
            }
        }
        assert forall|a: int, b: int| 0 <= a < b < r.len() implies #[trigger] r[a]
            != #[trigger] r[b] by {
            if b == rf.len() && rf[a] != n {
                let k = choose|k: int| 0 <= k < front.len() && #[trigger] front[k] == rf[a];
                assert(o[k] != o[last]);
            }
        }
        assert forall|a: int, b: int| 0 <= a < b < r.len() implies {
            ||| precedes(nodes[#[trigger] r[a]].name@, nodes[#[trigger] r[b]].name@, top)
            ||| r[a] < r[b] && !precedes(nodes[r[b]].name@, nodes[r[a]].name@, top)
        } by {
            if b == rf.len() {
                if rf[a] != n {
                    let k = choose|k: int| 0 <= k < front.len() && #[trigger] front[k] == rf[a];
                    assert(o[k] == r[a]);
                }
            } else {
                assert(rf[a] == r[a] && rf[b] == r[b]);
            }
        }
    } else {
        assert forall|a: int| 0 <= a < r.len() implies #[trigger] r[a] == n || exists|k: int|
            0 <= k < o.len() && #[trigger] o[k] == r[a] by {
            if a < o.len() {
                assert(o[a] == r[a]);
            }
        }
        assert forall|a: int, b: int| 0 <= a < b < r.len() implies {
            ||| precedes(nodes[#[trigger] r[a]].name@, nodes[#[trigger] r[b]].name@, top)
            ||| r[a] < r[b] && !precedes(nodes[r[b]].name@, nodes[r[a]].name@, top)
        } by {
            let last = o.len() - 1;
            if b == o.len() {
                if a < last {
                    assert(o[a] == r[a]);
                    assert(o[last] == o.last());
                    lemma_precedes(
                        nodes[o[a]].name@,
                        nodes[o[last]].name@,
                        name,
                        top,
                    );
                }
                lemma_precedes(nodes[r[a]].name@, name, name, top);
            } else {
                assert(o[a] == r[a] && o[b] == r[b]);
            }
        }
    }
}

/// The listing order is a permutation of the decks, and they are in order.
pub proof fn lemma_order(nodes: Seq<DeckNode>, n: nat, top: bool)
    requires
        n <= nodes.len(),
    ensures
        is_permutation(order(nodes, n, top), n as int),
        in_order(order(nodes, n, top), nodes, top),
    decreases n,
{
    if n > 0 {
        lemma_order(nodes, (n - 1) as nat, top);
        lemma_inserted(order(nodes, (n - 1) as nat, top), nodes, n - 1, top);
    }
}

spec fn positions(o: Seq<usize>) -> Seq<int> {
    o.map_values(|i: usize| i as int)
}

proof fn lemma_inserted_at(o: Seq<int>, nodes: Seq<DeckNode>, n: int, top: bool, p: int)
    requires
        0 <= p <= o.len(),
        forall|q: int|
            p <= q < o.len() ==> precedes(nodes[n].name@, nodes[#[trigger] o[q]].name@, top),
        p > 0 ==> !precedes(nodes[n].name@, nodes[o[p - 1]].name@, top),
    ensures
        inserted(o, nodes, n, top) == o.insert(p, n),
    decreases o.len(),
{
    if p == o.len() {
        assert(o.insert(p, n) =~= o.push(n));
    } else {
        let front = o.drop_last();
        assert(o.last() == o[o.len() - 1]);
        assert forall|q: int| p <= q < front.len() implies precedes(
            nodes[n].name@,
            nodes[#[trigger] front[q]].name@,
            top,
        ) by {
            assert(front[q] == o[q]);
        }
        lemma_inserted_at(front, nodes, n, top, p);
        assert(o.insert(p, n) =~= front.insert(p, n).push(o.last()));
    }
}

fn goes_before(a: &Vec<char>, a_first: bool, b: &Vec<char>, b_first: bool, top: bool) -> (r: bool)
    ensures
        r == (if top && a_first != b_first {
            a_first
        } else {
            before(a@, b@)
        }),
{
    if top && a_first != b_first {
        a_first
    } else {
        comes_before(a.as_slice(), b.as_slice())
    }
}

/// Positions of the decks in the order in which they are listed.
fn listing_order(nodes: &Vec<DeckNode>, top: bool) -> (o: Vec<usize>)
    ensures
        positions(o@) == order(nodes@, nodes@.len(), top),
        forall|a: int| 0 <= a < o@.len() ==> #[trigger] o@[a] < nodes@.len(),
{
    let mut keys: Vec<Vec<char>> = Vec::new();
    let mut firsts: Vec<bool> = Vec::new();
    let mut o: Vec<usize> = Vec::new();
    let mut n: usize = 0;
    assert(positions(o@) =~= order(nodes@, 0, top));
    while n < nodes.len()
        invariant
            n <= nodes@.len(),
            keys@.len() == n,
            firsts@.len() == n,
            forall|i: int| 0 <= i < n ==> (#[trigger] keys@[i])@ == lowercase(nodes@[i].name@),
            forall|i: int| 0 <= i < n ==> #[trigger] firsts@[i] == (nodes@[i].name@ == FIRST_DECK@),
            o@.len() == n,
            forall|a: int| 0 <= a < o@.len() ==> #[trigger] o@[a] < n,
            positions(o@) == order(nodes@, n as nat, top),
        decreases nodes@.len() - n,
    {
        let name: &str = nodes[n].name.as_str();
        let key: Vec<char> = chars_of(lower(name).as_str());
        let first: bool = same_text(name, FIRST_DECK);
        let mut p: usize = o.len();
        while p > 0 && goes_before(&key, first, &keys[o[p - 1]], firsts[o[p - 1]], top)
            invariant
                n < nodes@.len(),
                p <= o@.len() == n,
                keys@.len() == n,
                firsts@.len() == n,
                key@ == lowercase(nodes@[n as int].name@),
                first == (nodes@[n as int].name@ == FIRST_DECK@),
                forall|i: int| 0 <= i < n ==> (#[trigger] keys@[i])@ == lowercase(nodes@[i].name@),
                forall|i: int|
                    0 <= i < n ==> #[trigger] firsts@[i] == (nodes@[i].name@ == FIRST_DECK@),
                forall|a: int| 0 <= a < o@.len() ==> #[trigger] o@[a] < n,
                forall|q: int|
                    p <= q < o@.len() ==> precedes(
                        nodes@[n as int].name@,
                        nodes@[#[trigger] o@[q] as int].name@,
                        top,
                    ),
            decreases p,
        {
            p -= 1;
        }
        proof {
            let before = positions(o@);
            assert forall|q: int| p <= q < before.len() implies precedes(
                nodes@[n as int].name@,
                nodes@[#[trigger] before[q]].name@,
                top,
            ) by {
                assert(before[q] == o@[q]);
            }
            lemma_inserted_at(before, nodes@, n as int, top, p as int);
            assert(positions(o@.insert(p as int, n)) =~= before.insert(p as int, n as int));
        }
        o.insert(p, n);
        keys.push(key);
        firsts.push(first);
        n += 1;
    }
    o
}

// ------------------------------------------------------------------- rows

/// The row of a deck.
pub open spec fn row_of(node: DeckNode, level: u32) -> DeckRow {
    DeckRow {
        id: node.deck_id,
        name: node.name@,
        level,
        has_children: node.children@.len() > 0,
        collapsed: node.collapsed,
        new: node.new_count,
        learn: node.learn_count,
        review: node.review_count,
    }
}

/// One level below, as far as levels are counted.
pub open spec fn below(level: u32) -> u32 {
    if level < u32::MAX {
        (level + 1) as u32
    } else {
        level
    }
}

/// A deck's row, then those of its subdecks.
pub open spec fn deck_rows(node: DeckNode, level: u32) -> Seq<DeckRow>
    decreases node, 0int,
{
    seq![row_of(node, level)] + listed(
        node.children@,
        order(node.children@, node.children@.len(), false),
        below(level),
    )
}

/// The rows of the decks at these positions, one deck after the other.
pub open spec fn listed(nodes: Seq<DeckNode>, o: Seq<int>, level: u32) -> Seq<DeckRow>
    decreases nodes, o.len(),
{
    if o.len() == 0 {
        Seq::empty()
    } else if 0 <= o[0] < nodes.len() {
        deck_rows(nodes[o[0]], level) + listed(nodes, o.skip(1), level)
    } else {
        listed(nodes, o.skip(1), level)
    }
}

/// The deck is the default one, with nothing in it.
pub open spec fn is_empty_default(node: DeckNode) -> bool {
    &&& node.name@ == DEFAULT_DECK@
    &&& node.new_count == 0 && node.learn_count == 0 && node.review_count == 0
    &&& node.children@.len() == 0
}

/// The positions without those of an empty default deck.
pub open spec fn kept(nodes: Seq<DeckNode>, o: Seq<int>) -> Seq<int>
    decreases o.len(),
{
    if o.len() == 0 {
        o
    } else if is_empty_default(nodes[o[0]]) {
        kept(nodes, o.skip(1))
    } else {
        seq![o[0]] + kept(nodes, o.skip(1))
    }
}

/// All rows of the deck tree.
pub open spec fn tree_rows(nodes: Seq<DeckNode>) -> Seq<DeckRow> {
    listed(nodes, kept(nodes, order(nodes, nodes.len(), true)), 0)
}

/// What is still to be listed: the decks on the stack, the topmost first.
spec fn pending(stack: Seq<(&DeckNode, u32)>) -> Seq<DeckRow>
    decreases stack.len(),
{
    if stack.len() == 0 {
        Seq::empty()
    } else {
        deck_rows(*stack.last().0, stack.last().1) + pending(stack.drop_last())
    }
}

proof fn lemma_pending_push(stack: Seq<(&DeckNode, u32)>, e: (&DeckNode, u32))
    ensures
        pending(stack.push(e)) == deck_rows(*e.0, e.1) + pending(stack),
{
    assert(stack.push(e).drop_last() =~= stack);
}

proof fn lemma_listed_skip(nodes: Seq<DeckNode>, o: Seq<int>, k: int, level: u32)
    requires
        0 <= k < o.len(),
        0 <= o[k] < nodes.len(),
    ensures
        listed(nodes, o.skip(k), level) == deck_rows(nodes[o[k]], level) + listed(
            nodes,
            o.skip(k + 1),
            level,
        ),
{
    assert(o.skip(k).skip(1) =~= o.skip(k + 1));
    assert(o.skip(k)[0] == o[k]);
}

fn default_and_empty(node: &DeckNode) -> (b: bool)
    ensures
        b == is_empty_default(*node),
{
    node.children.len() == 0 && node.new_count == 0 && node.learn_count == 0 && node.review_count
        == 0 && same_text(node.name.as_str(), DEFAULT_DECK)
}

/// The deck tree as rows, depth first. An empty default deck at the top is left
/// out.
pub fn deck_infos(top: &Vec<DeckNode>) -> (out: Vec<DeckInfo>)
    ensures
        rows(out@) == tree_rows(top@),
{
    let mut out: Vec<DeckInfo> = Vec::new();
    let mut stack: Vec<(&DeckNode, u32)> = Vec::new();
    let o: Vec<usize> = listing_order(top, true);
    let ghost ps = positions(o@);
    let mut k: usize = o.len();
    assert(ps.skip(k as int) =~= Seq::empty());
    while k > 0
        invariant
            k <= o@.len(),
            ps == positions(o@),
            forall|a: int| 0 <= a < o@.len() ==> #[trigger] o@[a] < top@.len(),
            pending(stack@) == listed(top@, kept(top@, ps.skip(k as int)), 0),
        decreases k,
    {
        k -= 1;
        let node: &DeckNode = &top[o[k]];
        proof {
            let rest = kept(top@, ps.skip(k + 1));
            assert(ps.skip(k as int).skip(1) =~= ps.skip(k + 1));
            assert(ps.skip(k as int)[0] == o@[k as int]);
            lemma_pending_push(stack@, (node, 0u32));
            assert((seq![o@[k as int] as int] + rest).skip(1) =~= rest);
        }
        if !default_and_empty(node) {
            stack.push((node, 0));
        }
    }
    assert(ps.skip(0) =~= ps);
    assert(rows(out@) + pending(stack@) =~= tree_rows(top@));
    while stack.len() > 0
        invariant
            rows(out@) + pending(stack@) == tree_rows(top@),
        decreases tree_rows(top@).len() - out@.len(),
    {
        let ghost done = out@;
        let ghost waiting = stack@;
        let entry: (&DeckNode, u32) = match stack.pop() {
            Some(e) => e,
            None => return out,
        };
        let (node, level): (&DeckNode, u32) = entry;
        let d: DeckInfo = DeckInfo {
            id: node.deck_id,
            name: copy_of(node.name.as_str()),
            level,
            has_children: node.children.len() > 0,
            collapsed: node.collapsed,
            new: node.new_count,
            learn: node.learn_count,
            review: node.review_count,
        };
        out.push(d);
        let ghost left = stack@;
        let under: u32 = if level < u32::MAX {
            level + 1
        } else {
            level
        };
        let o: Vec<usize> = listing_order(&node.children, false);
        let ghost ps = positions(o@);
        let mut k: usize = o.len();
        assert(ps.skip(k as int) =~= Seq::empty());
        assert(pending(stack@) =~= listed(node.children@, ps.skip(k as int), under) + pending(
            left,
        ));
        while k > 0
            invariant
                k <= o@.len(),
                ps == positions(o@),
                forall|a: int| 0 <= a < o@.len() ==> #[trigger] o@[a] < node.children@.len(),
                pending(stack@) == listed(node.children@, ps.skip(k as int), under) + pending(
                    left,
                ),
            decreases k,
        {
            k -= 1;
            let kid: &DeckNode = &node.children[o[k]];
            proof {
                assert(ps[k as int] == o@[k as int]);
                lemma_listed_skip(node.children@, ps, k as int, under);
                lemma_pending_push(stack@, (kid, under));
                assert(deck_rows(*kid, under) + (listed(
                    node.children@,
                    ps.skip(k + 1),
                    under,
                ) + pending(left)) =~= listed(node.children@, ps.skip(k as int), under)
                    + pending(left));
            }
            stack.push((kid, under));
        }
        proof {
            assert(ps.skip(0) =~= ps);
            assert(d@ =~= row_of(*node, level));
            assert(rows(out@) =~= rows(done).push(d@));
            assert(waiting.drop_last() =~= left);
            assert(rows(out@) + pending(stack@) =~= rows(done) + pending(waiting));
        }
    }
    assert(rows(out@) =~= tree_rows(top@));
    out
}

// ------------------------------------------------------------- visible rows

/// Row `j` hides row `i`: it is a collapsed deck, and every row from there to `i`
/// lies deeper.
pub open spec fn hides(all: Seq<DeckRow>, collapsed: Set<i64>, j: int, i: int) -> bool {
    &&& 0 <= j < i
    &&& collapsed.contains(all[j].id)
    &&& all[j].has_children
    &&& forall|k: int| j < k <= i ==> (#[trigger] all[k]).level > all[j].level
}

/// Row `i` lies below a collapsed deck.
pub open spec fn hidden(all: Seq<DeckRow>, collapsed: Set<i64>, i: int) -> bool {
    exists|j: int| #[trigger] hides(all, collapsed, j, i)
}

/// The rows among the first `n` that are not hidden, each with its present
/// collapse state.
pub open spec fn shown_rows(all: Seq<DeckRow>, collapsed: Set<i64>, n: int) -> Seq<DeckRow>
    decreases n,
{
    if n <= 0 {
        Seq::empty()
    } else if hidden(all, collapsed, n - 1) {
        shown_rows(all, collapsed, n - 1)
    } else {
        shown_rows(all, collapsed, n - 1).push(
            DeckRow { collapsed: collapsed.contains(all[n - 1].id), ..all[n - 1] },
        )
    }
}

/// The rows that are visible while the decks with these numbers are collapsed.
pub fn visible_decks(all: &Vec<DeckInfo>, collapsed: &HashSet<i64>) -> (out: Vec<DeckInfo>)
    ensures
        rows(out@) == shown_rows(rows(all@), collapsed@, all@.len() as int),
        out@.len() <= all@.len(),
{
    broadcast use vstd::std_specs::hash::group_hash_axioms;

    let mut out: Vec<DeckInfo> = Vec::new();
    let mut depth: Option<u32> = None;
    let ghost mut by: int = 0;
    let ghost r = rows(all@);
    let ghost c = collapsed@;
    let mut i: usize = 0;
    assert(rows(out@) =~= shown_rows(r, c, 0));
    while i < all.len()
        invariant
            i <= all@.len(),
            r == rows(all@),
            c == collapsed@,
            out@.len() <= i,
            rows(out@) == shown_rows(r, c, i as int),
            depth is None ==> forall|j: int, m: int|
                #![trigger hides(r, c, j, m)]
                0 <= j < i <= m && hides(r, c, j, m) ==> false,
            depth matches Some(h) ==> {
                &&& 0 <= by < i
                &&& c.contains(r[by].id) && r[by].has_children && r[by].level == h
                &&& forall|k: int| by < k < i ==> (#[trigger] r[k]).level > h
                &&& forall|j: int, m: int|
                    #![trigger hides(r, c, j, m)]
                    0 <= j < i <= m && hides(r, c, j, m) ==> r[j].level >= h
            },
        decreases all@.len() - i,
    {
        let d: &DeckInfo = &all[i];
        let covered: bool = match depth {
            Some(h) => d.level > h,
            None => false,
        };
        assert(r[i as int] == d@);
        proof {
            if covered {
                assert(hides(r, c, by, i as int));
            } else {
                assert(!hidden(r, c, i as int)) by {
                    if hidden(r, c, i as int) {
                        let j = choose|j: int| #[trigger] hides(r, c, j, i as int);
                        assert(r[i as int].level > r[j].level);
                    }
                }
            }
        }
        if !covered {
            let is_collapsed: bool = collapsed.contains(&d.id);
            let mut row: DeckInfo = d.clone();
            row.collapsed = is_collapsed;
            let ghost done = rows(out@);
            proof {
                assert(rows(out@.push(row)) =~= done.push(row@));
                assert(row@ =~= (DeckRow { collapsed: c.contains(d@.id), ..d@ }));
                assert forall|j: int, m: int|
                    #![trigger hides(r, c, j, m)]
                    0 <= j < i < m && hides(r, c, j, m) implies false by {
                    assert(r[i as int].level > r[j].level);
                    assert(hides(r, c, j, i as int));
                }
            }
            out.push(row);
            if is_collapsed && d.has_children {
                depth = Some(d.level);
                proof {
                    by = i as int;
                }
            } else {
                depth = None;
            }
        } else {
            proof {
                assert forall|j: int, m: int|
                    #![trigger hides(r, c, j, m)]
                    0 <= j < i + 1 <= m && hides(r, c, j, m) implies r[j].level
                    >= r[by].level by {
                    if j < i {
                        assert(i <= m);
                    }
                }
            }
        }
        i += 1;
    }
    out
}

// ------------------------------------------------------------------- laws

/// A deck named `uni` at the top heads the list.
pub proof fn law_uni_comes_first(nodes: Seq<DeckNode>, i: int)
    requires
        0 <= i < nodes.len(),
        nodes[i].name@ == FIRST_DECK@,
    ensures
        tree_rows(nodes).len() > 0,
        tree_rows(nodes)[0].name == FIRST_DECK@,
{
    let o = order(nodes, nodes.len(), true);
    lemma_order(nodes, nodes.len(), true);
    assert(o.contains(i));
    let k = choose|k: int| 0 <= k < o.len() && o[k] == i;
    assert(nodes[o[0]].name@ == FIRST_DECK@) by {
        if k > 0 && nodes[o[0]].name@ != FIRST_DECK@ {
            assert(precedes(nodes[o[k]].name@, nodes[o[0]].name@, true));
            assert(!precedes(nodes[o[0]].name@, nodes[o[k]].name@, true));
        }
    }
    reveal_strlit("uni");
    reveal_strlit("Default");
    assert(FIRST_DECK@.len() == 3 && DEFAULT_DECK@.len() == 7);
    assert(kept(nodes, o)[0] == o[0]);
    let first = deck_rows(nodes[o[0]], 0);
    assert(first[0] == row_of(nodes[o[0]], 0));
    assert(tree_rows(nodes) == first + listed(nodes, kept(nodes, o).skip(1), 0));
}

/// The decks of every level are listed in order: no deck stands behind one that it
/// precedes.
pub proof fn law_listing_is_sorted(nodes: Seq<DeckNode>, top: bool, a: int, b: int)
    requires
        0 <= a < b < nodes.len(),
    ensures
        order(nodes, nodes.len(), top).len() == nodes.len(),
        !precedes(
            nodes[order(nodes, nodes.len(), top)[b]].name@,
            nodes[order(nodes, nodes.len(), top)[a]].name@,
            top,
        ),
{
    let o = order(nodes, nodes.len(), top);
    lemma_order(nodes, nodes.len(), top);
    lemma_precedes(nodes[o[a]].name@, nodes[o[b]].name@, nodes[o[b]].name@, top);
}

/// A deck's subtree stands directly behind it, and all of it lies deeper.
pub proof fn law_subtree_is_deeper(node: DeckNode, level: u32, i: int)
    requires
        level < u32::MAX,
        0 < i < deck_rows(node, level).len(),
    ensures
        deck_rows(node, level)[0] == row_of(node, level),
        deck_rows(node, level)[i].level > level,
{
    lemma_listed_levels(
        node.children@,
        order(node.children@, node.children@.len(), false),
        below(level),
    );
    let kids = listed(
        node.children@,
        order(node.children@, node.children@.len(), false),
        below(level),
    );
    assert(deck_rows(node, level)[i] == kids[i - 1]);
}

proof fn lemma_listed_levels(nodes: Seq<DeckNode>, o: Seq<int>, level: u32)
    ensures
        forall|i: int|
            0 <= i < listed(nodes, o, level).len() ==> (#[trigger] listed(nodes, o, level)[i]).level
                >= level,
    decreases nodes, o.len(),
{
    if o.len() > 0 {
        lemma_listed_levels(nodes, o.skip(1), level);
        if 0 <= o[0] < nodes.len() {
            let node = nodes[o[0]];
            let kids = order(node.children@, node.children@.len(), false);
            lemma_listed_levels(node.children@, kids, below(level));
            let first = deck_rows(node, level);
            assert(first == seq![row_of(node, level)] + listed(node.children@, kids, below(level)));
            assert(listed(nodes, o, level) == first + listed(nodes, o.skip(1), level));
            assert forall|i: int| 0 <= i < first.len() implies (#[trigger] first[i]).level
                >= level by {
                if i > 0 {
                    assert(first[i] == listed(node.children@, kids, below(level))[i - 1]);
                }
            }
        }
    }
}

/// A collapsed deck hides its whole subtree, wherever it stands in the list, and
/// nothing behind the subtree.
pub proof fn law_collapsed_deck_hides_its_subtree(
    front: Seq<DeckRow>,
    node: DeckNode,
    level: u32,
    back: Seq<DeckRow>,
    collapsed: Set<i64>,
    i: int,
)
    requires
        level < u32::MAX,
        collapsed.contains(node.deck_id),
        node.children@.len() > 0,
        0 < i < deck_rows(node, level).len(),
    ensures
        hidden(front + deck_rows(node, level) + back, collapsed, front.len() + i),
        back.len() > 0 && back[0].level <= level ==> !hides(
            front + deck_rows(node, level) + back,
            collapsed,
            front.len() as int,
            front.len() + deck_rows(node, level).len() as int,
        ),
{
    let own = deck_rows(node, level);
    let all = front + own + back;
    let j = front.len() as int;
    law_subtree_is_deeper(node, level, i);
    assert(all[j] == own[0]);
    assert forall|k: int| j < k <= j + i implies (#[trigger] all[k]).level > all[j].level by {
        assert(all[k] == own[k - j]);
        law_subtree_is_deeper(node, level, k - j);
    }
    assert(hides(all, collapsed, j, j + i));
    if back.len() > 0 {
        assert(all[j + own.len()] == back[0]);
    }
}

/// With nothing collapsed every row is visible.
pub proof fn law_all_visible_when_expanded(all: Seq<DeckRow>, collapsed: Set<i64>, n: int)
    requires
        0 <= n <= all.len(),
        forall|i: int| 0 <= i < all.len() ==> !collapsed.contains((#[trigger] all[i]).id),
    ensures
        shown_rows(all, collapsed, n).len() == n,
        forall|i: int|
            0 <= i < n ==> #[trigger] shown_rows(all, collapsed, n)[i] == (DeckRow {
                collapsed: false,
                ..all[i]
            }),
    decreases n,
{
    if n > 0 {
        law_all_visible_when_expanded(all, collapsed, n - 1);
        if hidden(all, collapsed, n - 1) {
            let j = choose|j: int| #[trigger] hides(all, collapsed, j, n - 1);
            assert(collapsed.contains(all[j].id));
        }
    }
}

/// Positions of the rows among the first `n` that are not hidden.
pub open spec fn shown_at(all: Seq<DeckRow>, collapsed: Set<i64>, n: int) -> Seq<int>
    decreases n,
{
    if n <= 0 {
        Seq::empty()
    } else if hidden(all, collapsed, n - 1) {
        shown_at(all, collapsed, n - 1)
    } else {
        shown_at(all, collapsed, n - 1).push(n - 1)
    }
}

proof fn lemma_shown_at(all: Seq<DeckRow>, collapsed: Set<i64>, n: int)
    requires
        0 <= n <= all.len(),
    ensures
        ({
            let at = shown_at(all, collapsed, n);
            let v = shown_rows(all, collapsed, n);
            &&& at.len() == v.len()
            &&& forall|k: int|
                #![trigger at[k]]
                0 <= k < at.len() ==> {
                    &&& 0 <= at[k] < n
                    &&& !hidden(all, collapsed, at[k])
                    &&& v[k] == DeckRow {
                        collapsed: collapsed.contains(all[at[k]].id),
                        ..all[at[k]]
                    }
                }
            &&& forall|j: int, k: int| 0 <= j < k < at.len() ==> #[trigger] at[j] < #[trigger] at[k]
            &&& forall|i: int|
                0 <= i < n && !#[trigger] hidden(all, collapsed, i) ==> at.contains(i)
        }),
    decreases n,
{
    if n > 0 {
        lemma_shown_at(all, collapsed, n - 1);
        let before = shown_at(all, collapsed, n - 1);
        let at = shown_at(all, collapsed, n);
        assert forall|i: int| 0 <= i < n && !#[trigger] hidden(all, collapsed, i) implies
            at.contains(i) by {
            if i < n - 1 {
                let k = choose|k: int| 0 <= k < before.len() && before[k] == i;
                assert(at[k] == i);
            } else {
                assert(at[before.len() as int] == i);
            }
        }
    }
}

/// A row that is shown is not hidden among the rows that are shown.
proof fn lemma_shown_not_hidden(all: Seq<DeckRow>, collapsed: Set<i64>, i: int)
    requires
        0 <= i < shown_rows(all, collapsed, all.len() as int).len(),
    ensures
        !hidden(shown_rows(all, collapsed, all.len() as int), collapsed, i),
{
    let v = shown_rows(all, collapsed, all.len() as int);
    let at = shown_at(all, collapsed, all.len() as int);
    lemma_shown_at(all, collapsed, all.len() as int);
    if hidden(v, collapsed, i) {
        let j = choose|j: int| #[trigger] hides(v, collapsed, j, i);
        let (a, b) = (at[j], at[i]);
        assert(all[a].id == v[j].id && all[a].level == v[j].level);
        assert forall|k: int| a < k <= b implies (#[trigger] all[k]).level > all[a].level by {
            lemma_deeper_between(all, collapsed, j, i, k);
        }
        assert(hides(all, collapsed, a, b));
    }
}

/// What lies between two shown rows, of which the first hides the second among the
/// shown ones, is deeper than the first.
proof fn lemma_deeper_between(all: Seq<DeckRow>, collapsed: Set<i64>, j: int, i: int, k: int)
    requires
        0 <= i < shown_rows(all, collapsed, all.len() as int).len(),
        hides(shown_rows(all, collapsed, all.len() as int), collapsed, j, i),
        shown_at(all, collapsed, all.len() as int)[j] < k <= shown_at(
            all,
            collapsed,
            all.len() as int,
        )[i],
    ensures
        all[k].level > all[shown_at(all, collapsed, all.len() as int)[j]].level,
    decreases k,
{
    let v = shown_rows(all, collapsed, all.len() as int);
    let at = shown_at(all, collapsed, all.len() as int);
    lemma_shown_at(all, collapsed, all.len() as int);
    let (a, b) = (at[j], at[i]);
    assert forall|m: int| a < m < k implies (#[trigger] all[m]).level > all[a].level by {
        lemma_deeper_between(all, collapsed, j, i, m);
    }
    if !hidden(all, collapsed, k) {
        assert(at.contains(k));
        let n = choose|n: int| 0 <= n < at.len() && at[n] == k;
        assert(j < n) by {
            if n < j {
                assert(at[n] < at[j]);
            }
        }
        assert(n <= i) by {
            if i < n {
                assert(at[i] < at[n]);
            }
        }
        assert(v[n].level > v[j].level);
        assert(v[n].level == all[k].level && v[j].level == all[a].level);
    } else {
        let h = choose|h: int| #[trigger] hides(all, collapsed, h, k);
        assert(all[k].level > all[h].level);
        if h < a {
            assert(all[a].level > all[h].level);
            assert(hides(all, collapsed, h, a));
        }
    }
}

/// Filtering the visible rows again changes nothing: none of them is hidden by
/// another.
pub proof fn law_visible_rows_stay(all: Seq<DeckRow>, collapsed: Set<i64>)
    ensures
        ({
            let v = shown_rows(all, collapsed, all.len() as int);
            shown_rows(v, collapsed, v.len() as int) == v
        }),
{
    let v = shown_rows(all, collapsed, all.len() as int);
    lemma_visible_front(all, collapsed, v.len() as int);
    assert(v.take(v.len() as int) =~= v);
}

proof fn lemma_visible_front(all: Seq<DeckRow>, collapsed: Set<i64>, n: int)
    requires
        0 <= n <= shown_rows(all, collapsed, all.len() as int).len(),
    ensures
        ({
            let v = shown_rows(all, collapsed, all.len() as int);
            shown_rows(v, collapsed, n) == v.take(n)
        }),
    decreases n,
{
    let v = shown_rows(all, collapsed, all.len() as int);
    if n > 0 {
        lemma_visible_front(all, collapsed, n - 1);
        lemma_shown_not_hidden(all, collapsed, n - 1);
        lemma_shown_at(all, collapsed, all.len() as int);
        let at = shown_at(all, collapsed, all.len() as int);
        assert(v[n - 1] == DeckRow {
            collapsed: collapsed.contains(all[at[n - 1]].id),
            ..all[at[n - 1]]
        });
        assert(v.take(n) =~= v.take(n - 1).push(v[n - 1]));
    } else {
        assert(v.take(0) =~= Seq::empty());
    }
}

/// The name decides where a deck is listed: at the top `uni` stands before every other
/// deck; apart from that the names without regard to case decide, the lesser first.
pub proof fn law_names_decide_the_order(a: Seq<char>, b: Seq<char>)
    ensures
        a == "uni"@ && b != "uni"@ ==> precedes(a, b, true) && !precedes(b, a, true),
        (a == "uni"@) == (b == "uni"@) ==> precedes(a, b, true) == before(
            lowercase(a),
            lowercase(b),
        ),
        precedes(a, b, false) == before(lowercase(a), lowercase(b)),
        precedes(a, b, true) ==> !precedes(b, a, true),
{
    lemma_precedes(a, b, b, true);
}

/// A deck's row tells the deck's number, name and counts, whether it has subdecks and
/// whether it is collapsed; the rows of its subdecks lie one level below.
pub proof fn law_row_tells_the_deck(node: DeckNode, level: u32)
    requires
        level < u32::MAX,
    ensures
        ({
            let r = deck_rows(node, level);
            let kids = node.children@;
            &&& r.len() > 0
            &&& r[0].id == node.deck_id && r[0].name == node.name@ && r[0].level == level
            &&& r[0].new == node.new_count && r[0].learn == node.learn_count && r[0].review
                == node.review_count
            &&& r[0].collapsed == node.collapsed
            &&& r[0].has_children == (node.children@.len() > 0)
            &&& r.skip(1) == listed(kids, order(kids, kids.len(), false), (level + 1) as u32)
        }),
{
    let kids = listed(
        node.children@,
        order(node.children@, node.children@.len(), false),
        below(level),
    );
    assert(deck_rows(node, level).skip(1) =~= kids);
}

/// A list of decks is listed deck by deck: in front of the rows of each stand those of
/// the decks before it, behind them those of the decks after it.
pub proof fn law_decks_follow_one_another(nodes: Seq<DeckNode>, o: Seq<int>, level: u32, k: int)
    requires
        0 <= k < o.len(),
        forall|a: int| 0 <= a < o.len() ==> 0 <= #[trigger] o[a] < nodes.len(),
    ensures
        listed(nodes, o, level) == listed(nodes, o.take(k), level) + deck_rows(
            nodes[o[k]],
            level,
        ) + listed(nodes, o.skip(k + 1), level),
        listed(nodes, Seq::empty(), level).len() == 0,
    decreases k,
{
    if k == 0 {
        assert(o.take(0) =~= Seq::empty());
        assert(listed(nodes, o, level) =~= listed(nodes, o.take(k), level) + deck_rows(
            nodes[o[k]],
            level,
        ) + listed(nodes, o.skip(k + 1), level));
    } else {
        let rest = o.skip(1);
        assert forall|a: int| 0 <= a < rest.len() implies 0 <= #[trigger] rest[a] < nodes.len() by {
            assert(rest[a] == o[a + 1]);
        }
        law_decks_follow_one_another(nodes, rest, level, k - 1);
        assert(rest.skip(k) =~= o.skip(k + 1));
        assert(o.take(k).skip(1) =~= rest.take(k - 1));
        assert(o.take(k)[0] == o[0]);
        assert(listed(nodes, o, level) =~= listed(nodes, o.take(k), level) + deck_rows(
            nodes[o[k]],
            level,
        ) + listed(nodes, o.skip(k + 1), level));
    }
}

/// Every deck is listed just once, in order, at the top and among the subdecks of a
/// deck; at the top an empty deck named `Default` is left out and no other.
pub proof fn law_every_deck_is_listed_once(nodes: Seq<DeckNode>, i: int)
    requires
        0 <= i < nodes.len(),
    ensures
        ({
            let all = order(nodes, nodes.len(), false);
            let top = kept(nodes, order(nodes, nodes.len(), true));
            &&& tree_rows(nodes) == listed(nodes, top, 0)
            &&& all.contains(i) && all.len() == nodes.len()
            &&& forall|a: int, b: int| 0 <= a < b < all.len() ==> #[trigger] all[a]
                != #[trigger] all[b]
            &&& forall|a: int| 0 <= a < top.len() ==> 0 <= #[trigger] top[a] < nodes.len()
            &&& forall|a: int, b: int| 0 <= a < b < top.len() ==> #[trigger] top[a]
                != #[trigger] top[b]
            &&& in_order(top, nodes, true)
            &&& top.contains(i) == !(nodes[i].name@ == "Default"@ && nodes[i].children@.len() == 0
                && nodes[i].new_count == 0 && nodes[i].learn_count == 0 && nodes[i].review_count
                == 0)
        }),
{
    lemma_order(nodes, nodes.len(), false);
    lemma_order(nodes, nodes.len(), true);
    let o = order(nodes, nodes.len(), true);
    assert(o.contains(i));
    lemma_kept(nodes, o, i);
}

proof fn lemma_kept(nodes: Seq<DeckNode>, o: Seq<int>, i: int)
    requires
        forall|a: int| 0 <= a < o.len() ==> 0 <= #[trigger] o[a] < nodes.len(),
        forall|a: int, b: int| 0 <= a < b < o.len() ==> #[trigger] o[a] != #[trigger] o[b],
        in_order(o, nodes, true),
    ensures
        ({
            let r = kept(nodes, o);
            &&& forall|a: int| 0 <= a < r.len() ==> o.contains(#[trigger] r[a])
            &&& forall|a: int| 0 <= a < r.len() ==> 0 <= #[trigger] r[a] < nodes.len()
            &&& forall|a: int, b: int| 0 <= a < b < r.len() ==> #[trigger] r[a] != #[trigger] r[b]
            &&& in_order(r, nodes, true)
            &&& r.contains(i) == (o.contains(i) && !is_empty_default(nodes[i]))
        }),
    decreases o.len(),
{
    if o.len() > 0 {
        let rest = o.skip(1);
        assert forall|a: int| 0 <= a < rest.len() implies 0 <= #[trigger] rest[a] < nodes.len() by {
            assert(rest[a] == o[a + 1]);
        }
        assert forall|a: int, b: int| 0 <= a < b < rest.len() implies #[trigger] rest[a]
            != #[trigger] rest[b] by {
            assert(o[a + 1] != o[b + 1]);
        }
        assert forall|a: int, b: int| 0 <= a < b < rest.len() implies {
            ||| precedes(nodes[#[trigger] rest[a]].name@, nodes[#[trigger] rest[b]].name@, true)
            ||| rest[a] < rest[b] && !precedes(nodes[rest[b]].name@, nodes[rest[a]].name@, true)
        } by {
            assert(rest[a] == o[a + 1] && rest[b] == o[b + 1]);
        }
        lemma_kept(nodes, rest, i);
        let r = kept(nodes, o);
        let k = kept(nodes, rest);
        let own = !is_empty_default(nodes[o[0]]);
        assert(o.contains(i) == (o[0] == i || rest.contains(i))) by {
            if o.contains(i) {
                let n = choose|n: int| 0 <= n < o.len() && o[n] == i;
                if n > 0 {
                    assert(rest[n - 1] == i);
                }
            }
            if rest.contains(i) {
                let n = choose|n: int| 0 <= n < rest.len() && rest[n] == i;
                assert(o[n + 1] == i);
            }
        }
        assert forall|a: int| 0 <= a < k.len() implies o.contains(#[trigger] k[a]) by {
            let n = choose|n: int| 0 <= n < rest.len() && rest[n] == k[a];
            assert(o[n + 1] == k[a]);
        }
        if own {
            assert(r[0] == o[0]);
            assert(o.contains(o[0]));
            assert(r.contains(i) == (i == o[0] || k.contains(i))) by {
                if r.contains(i) {
                    let n = choose|n: int| 0 <= n < r.len() && r[n] == i;
                    if n > 0 {
                        assert(k[n - 1] == i);
                    }
                }
                if k.contains(i) {
                    let n = choose|n: int| 0 <= n < k.len() && k[n] == i;
                    assert(r[n + 1] == i);
                }
            }
            assert forall|a: int| 0 <= a < r.len() implies o.contains(#[trigger] r[a]) by {
                if a > 0 {
                    assert(r[a] == k[a - 1]);
                }
            }
            assert forall|a: int| 0 <= a < r.len() implies 0 <= #[trigger] r[a] < nodes.len() by {
                if a > 0 {
                    assert(r[a] == k[a - 1]);
                }
            }
            assert forall|a: int, b: int| 0 <= a < b < r.len() implies #[trigger] r[a]
                != #[trigger] r[b] && {
                ||| precedes(nodes[r[a]].name@, nodes[r[b]].name@, true)
                ||| r[a] < r[b] && !precedes(nodes[r[b]].name@, nodes[r[a]].name@, true)
            } by {
                assert(r[b] == k[b - 1]);
                if a > 0 {
                    assert(r[a] == k[a - 1]);
                } else {
                    let n = choose|n: int| 0 <= n < rest.len() && rest[n] == k[b - 1];
                    assert(o[n + 1] == r[b]);
                    assert(o[0] == r[a]);
                }
            }
        } else {
            if i == o[0] && k.contains(i) {
                let n = choose|n: int| 0 <= n < k.len() && k[n] == i;
                assert(rest.contains(k[n]));
                let m = choose|m: int| 0 <= m < rest.len() && rest[m] == k[n];
                assert(o[m + 1] == o[0]);
            }
        }
    }
}

/// Just those rows are visible above which no collapsed deck lies: row `i` is left out
/// where a deck in front of it is collapsed, has subdecks, and every row from there to
/// `i` lies deeper. The visible rows keep their order and what they tell, but for whether
/// they are collapsed.
pub proof fn law_rows_below_a_collapsed_deck_are_left_out(
    all: Seq<DeckRow>,
    collapsed: Set<i64>,
    i: int,
)
    requires
        0 <= i < all.len(),
    ensures
        ({
            let v = shown_rows(all, collapsed, all.len() as int);
            let at = shown_at(all, collapsed, all.len() as int);
            &&& at.len() == v.len()
            &&& forall|a: int, b: int| 0 <= a < b < at.len() ==> #[trigger] at[a] < #[trigger] at[b]
            &&& forall|k: int|
                #![trigger v[k]]
                0 <= k < v.len() ==> {
                    let r = all[at[k]];
                    &&& 0 <= at[k] < all.len()
                    &&& v[k].id == r.id && v[k].name == r.name && v[k].level == r.level
                    &&& v[k].has_children == r.has_children
                    &&& v[k].new == r.new && v[k].learn == r.learn && v[k].review == r.review
                    &&& v[k].collapsed == collapsed.contains(r.id)
                }
            &&& at.contains(i) == !(exists|j: int|
                #![trigger all[j]]
                0 <= j < i && collapsed.contains(all[j].id) && all[j].has_children && forall|k: int|
                    j < k <= i ==> (#[trigger] all[k]).level > all[j].level)
        }),
{
    let n = all.len() as int;
    let v = shown_rows(all, collapsed, n);
    let at = shown_at(all, collapsed, n);
    lemma_shown_at(all, collapsed, n);
    assert forall|k: int| #![trigger v[k]] 0 <= k < v.len() implies 0 <= at[k] < n && v[k]
        == (DeckRow { collapsed: collapsed.contains(all[at[k]].id), ..all[at[k]] }) by {
        assert(!hidden(all, collapsed, at[k]));
    }
    if at.contains(i) {
        let k = choose|k: int| 0 <= k < at.len() && at[k] == i;
        assert(!hidden(all, collapsed, at[k]));
        assert forall|j: int|
            #![trigger all[j]]
            0 <= j < i && collapsed.contains(all[j].id) && all[j].has_children && (forall|k: int|
                j < k <= i ==> (#[trigger] all[k]).level > all[j].level) implies false by {
            assert(hides(all, collapsed, j, i));
        }
    } else {
        assert(hidden(all, collapsed, i));
        let j = choose|j: int| #[trigger] hides(all, collapsed, j, i);
        assert(collapsed.contains(all[j].id));
    }
}

} // verus!
