//! Open trade windows: which customers hold which trading NPC in place,
//! and for how many more server ticks. Opening a window again does not
//! refresh its hold, so no window can pin an NPC forever; every tick counts
//! each hold down by one and releases the NPCs left without customers.
use vstd::prelude::*;
use crate::entity::PlayerId;

verus! {

/// Ticks a freshly opened trade window holds its NPC in place.
pub const SHOP_HOLD_TICKS: u8 = 4;

/// One trading NPC with its customers and the ticks each one's window
/// still holds it.
#[derive(Debug, Clone)]
pub struct OpenShop {
    pub merchant: PlayerId,
    pub customers: Vec<(PlayerId, u8)>,
}

/// Every trading NPC with an open window.
#[derive(Debug, Clone)]
pub struct OpenShops {
    pub shops: Vec<OpenShop>,
}

/// The shops as plain values: each NPC with its `(customer, ticks)` holds.
pub type ShopsView = Seq<(PlayerId, Seq<(PlayerId, u8)>)>;

impl View for OpenShops {
    type V = Seq<(PlayerId, Seq<(PlayerId, u8)>)>;

    open spec fn view(&self) -> Seq<(PlayerId, Seq<(PlayerId, u8)>)> {
        self.shops@.map_values(|o: OpenShop| (o.merchant, o.customers@))
    }
}

/// The holds left after one tick: each counted down by one, those that
/// reach zero dropped.
pub open spec fn tick_customers(c: Seq<(PlayerId, u8)>) -> Seq<(PlayerId, u8)>
    decreases c.len(),
{
    if c.len() == 0 {
        Seq::empty()
    } else {
        let rest = tick_customers(c.drop_last());
        if c.last().1 > 1 {
            rest.push((c.last().0, (c.last().1 - 1) as u8))
        } else {
            rest
        }
    }
}

/// The shops after one tick: NPCs whose holds all ran out leave.
pub open spec fn tick_view(v: ShopsView) -> ShopsView
    decreases v.len(),
{
    if v.len() == 0 {
        Seq::empty()
    } else {
        let rest = tick_view(v.drop_last());
        let c = tick_customers(v.last().1);
        if c.len() > 0 {
            rest.push((v.last().0, c))
        } else {
            rest
        }
    }
}

/// The NPCs one tick releases, in shop order.
pub open spec fn tick_freed(v: ShopsView) -> Seq<PlayerId>
    decreases v.len(),
{
    if v.len() == 0 {
        Seq::empty()
    } else {
        let rest = tick_freed(v.drop_last());
        if tick_customers(v.last().1).len() > 0 {
            rest
        } else {
            rest.push(v.last().0)
        }
    }
}

/// The first position at or after `i` of key `x` among the first
/// components of `s`.
pub open spec fn key_pos_from<T>(s: Seq<(PlayerId, T)>, x: PlayerId, i: int) -> Option<int>
    decreases s.len() - i,
{
    if i < 0 || i >= s.len() {
        None
    } else if s[i].0 == x {
        Some(i)
    } else {
        key_pos_from(s, x, i + 1)
    }
}

pub open spec fn key_pos<T>(s: Seq<(PlayerId, T)>, x: PlayerId) -> Option<int> {
    key_pos_from(s, x, 0)
}

pub proof fn lemma_key_pos_from<T>(s: Seq<(PlayerId, T)>, x: PlayerId, i: int)
    requires
        0 <= i,
    ensures
        key_pos_from(s, x, i) matches Some(k) ==> i <= k < s.len() && s[k].0 == x && forall|j: int|
            i <= j < k ==> #[trigger] s[j].0 != x,
        key_pos_from(s, x, i) is None ==> forall|j: int| i <= j < s.len() ==> #[trigger] s[j].0 != x,
    decreases s.len() - i,
{
    if i < s.len() {
        lemma_key_pos_from(s, x, i + 1);
    }
}

proof fn lemma_key_pos_is<T>(s: Seq<(PlayerId, T)>, x: PlayerId, i: int, k: int)
    requires
        0 <= i <= k < s.len(),
        s[k].0 == x,
        forall|j: int| i <= j < k ==> #[trigger] s[j].0 != x,
    ensures
        key_pos_from(s, x, i) == Some(k),
    decreases k - i,
{
    if i < k {
        lemma_key_pos_is(s, x, i + 1, k);
    }
}

/// Opening a window that is already open changes nothing: reopening never
/// refreshes a customer's hold, so a hold cannot be stretched by reopening.
pub proof fn lemma_reopen_keeps_hold(v: ShopsView, m: PlayerId, p: PlayerId)
    ensures
        open_view(open_view(v, m, p), m, p) == open_view(v, m, p),
{
    let w = open_view(v, m, p);
    lemma_key_pos_from(v, m, 0);
    match key_pos(v, m) {
        Some(k) => {
            let c = v[k].1;
            lemma_key_pos_from(c, p, 0);
            if key_pos(c, p) is None {
                let c2 = c.push((p, SHOP_HOLD_TICKS));
                assert forall|j: int| 0 <= j < k implies #[trigger] w[j].0 != m by {
                    assert(w[j] == v[j]);
                }
                lemma_key_pos_is(w, m, 0, k);
                assert(w[k].1 == c2);
                assert forall|j: int| 0 <= j < c.len() implies #[trigger] c2[j].0 != p by {
                    assert(c2[j] == c[j]);
                }
                lemma_key_pos_is(c2, p, 0, c.len() as int);
            }
        },
        None => {
            assert forall|j: int| 0 <= j < v.len() implies #[trigger] w[j].0 != m by {
                assert(w[j] == v[j]);
            }
            lemma_key_pos_is(w, m, 0, v.len() as int);
            lemma_key_pos_is(w[v.len() as int].1, p, 0, 0);
        },
    }
}

/// Position of key `x` in `s`, scanning from the front.
fn find_key<T>(s: &Vec<(PlayerId, T)>, x: PlayerId) -> (r: Option<usize>)
    ensures
        r matches Some(k) ==> k < s@.len() && key_pos(s@, x) == Some(k as int),
        r is None ==> key_pos(s@, x) is None,
{
    proof {
        lemma_key_pos_from(s@, x, 0);
    }
    let mut i: usize = 0;
    while i < s.len()
        invariant
            0 <= i <= s@.len(),
            key_pos(s@, x) == key_pos_from(s@, x, i as int),
        decreases s@.len() - i,
    {
        if s[i].0 == x {
            return Some(i);
        }
        i = i + 1;
    }
    None
}

/// The shops after `p` opens `m`'s trade window: a new customer holds the
/// NPC for the full count; a customer already there keeps its hold as it
/// was (reopening never refreshes it).
pub open spec fn open_view(v: ShopsView, m: PlayerId, p: PlayerId) -> ShopsView {
    match key_pos(v, m) {
        Some(k) => if key_pos(v[k].1, p) is Some {
            v
        } else {
            v.update(k, (m, v[k].1.push((p, SHOP_HOLD_TICKS))))
        },
        None => v.push((m, seq![(p, SHOP_HOLD_TICKS)])),
    }
}

/// Opening `m`'s window makes it busy when it had no customer before.
pub open spec fn open_made_busy(v: ShopsView, m: PlayerId) -> bool {
    match key_pos(v, m) {
        Some(k) => v[k].1.len() == 0,
        None => true,
    }
}

/// `c` without customer `p`'s hold.
pub open spec fn without_customer(c: Seq<(PlayerId, u8)>, p: PlayerId) -> Seq<(PlayerId, u8)> {
    match key_pos(c, p) {
        Some(j) => c.remove(j),
        None => c,
    }
}

/// The shops after `p` closes `m`'s window, and whether `m` was freed:
/// an NPC left without customers leaves the table.
pub open spec fn close_view(v: ShopsView, p: PlayerId, m: PlayerId) -> (ShopsView, bool) {
    match key_pos(v, m) {
        None => (v, false),
        Some(k) => {
            let c = without_customer(v[k].1, p);
            if c.len() == 0 {
                (v.remove(k), true)
            } else {
                (v.update(k, (m, c)), false)
            }
        },
    }
}

/// `v` without the shop of NPC `p`.
pub open spec fn without_shop(v: ShopsView, p: PlayerId) -> ShopsView {
    match key_pos(v, p) {
        Some(k) => v.remove(k),
        None => v,
    }
}

/// Shop `e` loses its customer `p`, and is dropped when that leaves it
/// empty.
pub open spec fn drops_after_leaving(e: (PlayerId, Seq<(PlayerId, u8)>), p: PlayerId) -> bool {
    key_pos(e.1, p) is Some && without_customer(e.1, p).len() == 0
}

/// The shops kept when customer `p` leaves every window.
pub open spec fn leave_kept(v: ShopsView, p: PlayerId) -> ShopsView
    decreases v.len(),
{
    if v.len() == 0 {
        Seq::empty()
    } else {
        let rest = leave_kept(v.drop_last(), p);
        if drops_after_leaving(v.last(), p) {
            rest
        } else {
            rest.push((v.last().0, without_customer(v.last().1, p)))
        }
    }
}

/// The NPCs freed when customer `p` leaves every window.
pub open spec fn leave_freed(v: ShopsView, p: PlayerId) -> Seq<PlayerId>
    decreases v.len(),
{
    if v.len() == 0 {
        Seq::empty()
    } else {
        let rest = leave_freed(v.drop_last(), p);
        if drops_after_leaving(v.last(), p) {
            rest.push(v.last().0)
        } else {
            rest
        }
    }
}

/// A copy of the holds `c`.
fn copy_holds(c: &Vec<(PlayerId, u8)>) -> (r: Vec<(PlayerId, u8)>)
    ensures
        r@ == c@,
{
    let mut r: Vec<(PlayerId, u8)> = Vec::new();
    let mut j: usize = 0;
    while j < c.len()
        invariant
            0 <= j <= c@.len(),
            r@ == c@.subrange(0, j as int),
        decreases c@.len() - j,
    {
        r.push(c[j]);
        j = j + 1;
    }
    assert(r@ =~= c@);
    r
}

/// No key occurs twice among the first components.
pub open spec fn keys_unique<T>(s: Seq<(PlayerId, T)>) -> bool {
    forall|i: int, j: int| 0 <= i < j < s.len() ==> #[trigger] s[i].0 != #[trigger] s[j].0
}

/// Every key of `r` is a key of `s`.
pub open spec fn keys_within<T, U>(r: Seq<(PlayerId, T)>, s: Seq<(PlayerId, U)>) -> bool {
    forall|k: int|
        #![trigger r[k]]
        0 <= k < r.len() ==> exists|i: int| 0 <= i < s.len() && r[k].0 == #[trigger] s[i].0
}

/// A shop's holds: at least one customer, each once, each holding for
/// between one and `hi` more ticks.
pub open spec fn holds_within(c: Seq<(PlayerId, u8)>, hi: int) -> bool {
    &&& c.len() > 0
    &&& keys_unique(c)
    &&& forall|a: int| 0 <= a < c.len() ==> 1 <= #[trigger] c[a].1 <= hi
}

/// Every shop lists its NPC once and holds it by at most `hi` more ticks.
pub open spec fn shops_within(v: ShopsView, hi: int) -> bool {
    &&& keys_unique(v)
    &&& forall|i: int| 0 <= i < v.len() ==> holds_within(#[trigger] v[i].1, hi)
}

/// The invariant of the open-window table.
pub open spec fn shops_wf(v: ShopsView) -> bool {
    shops_within(v, SHOP_HOLD_TICKS as int)
}

proof fn lemma_tick_customers(c: Seq<(PlayerId, u8)>, hi: int)
    ensures
        keys_within(tick_customers(c), c),
        keys_unique(c) ==> keys_unique(tick_customers(c)),
        (forall|a: int| 0 <= a < c.len() ==> 1 <= #[trigger] c[a].1 <= hi) ==> (forall|a: int|
            0 <= a < tick_customers(c).len() ==> 1 <= #[trigger] tick_customers(c)[a].1 <= hi - 1),
    decreases c.len(),
{
    if c.len() > 0 {
        let d = c.drop_last();
        lemma_tick_customers(d, hi);
        let rest = tick_customers(d);
        let t = tick_customers(c);
        assert forall|k: int| #![trigger t[k]] 0 <= k < t.len() implies exists|i: int| 0 <= i < c.len() && t[k].0 == #[trigger] c[i].0 by {
            if k < rest.len() {
                let i = choose|i: int| 0 <= i < d.len() && rest[k].0 == #[trigger] d[i].0;
                assert(t[k] == rest[k] && c[i] == d[i]);
            } else {
                assert(t[k].0 == c[c.len() - 1].0);
            }
        }
        if keys_unique(c) {
            assert(keys_unique(d));
            assert forall|i: int, j: int| 0 <= i < j < t.len() implies #[trigger] t[i].0 != #[trigger] t[j].0 by {
                if j == rest.len() {
                    let a = choose|a: int| 0 <= a < d.len() && rest[i].0 == #[trigger] d[a].0;
                    assert(c[a] == d[a]);
                    assert(t[j].0 == c[c.len() - 1].0);
                }
            }
        }
        if forall|a: int| 0 <= a < c.len() ==> 1 <= #[trigger] c[a].1 <= hi {
            assert forall|a: int| 0 <= a < d.len() implies 1 <= #[trigger] d[a].1 <= hi by {
                assert(d[a] == c[a]);
            }
        }
    }
}

proof fn lemma_tick_view(v: ShopsView, hi: int)
    requires
        shops_within(v, hi),
    ensures
        keys_within(tick_view(v), v),
        shops_within(tick_view(v), hi - 1),
    decreases v.len(),
{
    if v.len() > 0 {
        let d = v.drop_last();
        assert(shops_within(d, hi)) by {
            assert forall|i: int| 0 <= i < d.len() implies holds_within(#[trigger] d[i].1, hi) by {
                assert(d[i] == v[i]);
            }
        }
        lemma_tick_view(d, hi);
        let rest = tick_view(d);
        let t = tick_view(v);
        let last = v[v.len() - 1];
        lemma_tick_customers(last.1, hi);
        let c = tick_customers(last.1);
        assert forall|k: int| #![trigger t[k]] 0 <= k < t.len() implies exists|i: int| 0 <= i < v.len() && t[k].0 == #[trigger] v[i].0 by {
            if k < rest.len() {
                let i = choose|i: int| 0 <= i < d.len() && rest[k].0 == #[trigger] d[i].0;
                assert(t[k] == rest[k] && v[i] == d[i]);
            } else {
                assert(t[k].0 == v[v.len() - 1].0);
            }
        }
        assert forall|i: int, j: int| 0 <= i < j < t.len() implies #[trigger] t[i].0 != #[trigger] t[j].0 by {
            if j == rest.len() {
                let a = choose|a: int| 0 <= a < d.len() && rest[i].0 == #[trigger] d[a].0;
                assert(v[a] == d[a]);
                assert(t[j].0 == v[v.len() - 1].0);
            }
        }
        assert forall|i: int| 0 <= i < t.len() implies holds_within(#[trigger] t[i].1, hi - 1) by {
            if i == rest.len() {
                assert(t[i].1 == c);
            }
        }
    }
}

/// Every tick counts every hold down: a table whose holds last at most
/// `SHOP_HOLD_TICKS` ticks keeps its invariant under a tick and is empty
/// after `SHOP_HOLD_TICKS` ticks, so no window holds an NPC forever.
pub proof fn lemma_holds_expire(v: ShopsView)
    requires
        shops_wf(v),
    ensures
        shops_wf(tick_view(v)),
        tick_view(tick_view(tick_view(tick_view(v)))).len() == 0,
{
    lemma_tick_view(v, 4);
    let v1 = tick_view(v);
    assert(shops_within(v1, 4)) by {
        assert forall|i: int| 0 <= i < v1.len() implies holds_within(#[trigger] v1[i].1, 4) by {
            assert(holds_within(v1[i].1, 3));
        }
    }
    lemma_tick_view(v1, 3);
    let v2 = tick_view(v1);
    lemma_tick_view(v2, 2);
    let v3 = tick_view(v2);
    lemma_tick_view(v3, 1);
    let v4 = tick_view(v3);
    if v4.len() > 0 {
        assert(holds_within(v4[0].1, 0));
        assert(1 <= v4[0].1[0].1 <= 0);
    }
}

proof fn lemma_remove_unique<T>(s: Seq<(PlayerId, T)>, j: int)
    requires
        keys_unique(s),
        0 <= j < s.len(),
    ensures
        keys_unique(s.remove(j)),
{
    s.remove_ensures(j);
    let r = s.remove(j);
    assert forall|a: int, b: int| 0 <= a < b < r.len() implies #[trigger] r[a].0 != #[trigger] r[b].0 by {
        let ia = if a < j { a } else { a + 1 };
        let ib = if b < j { b } else { b + 1 };
        assert(r[a] == s[ia] && r[b] == s[ib]);
    }
}

proof fn lemma_without_customer(c: Seq<(PlayerId, u8)>, p: PlayerId, hi: int)
    requires
        keys_unique(c),
        forall|a: int| 0 <= a < c.len() ==> 1 <= #[trigger] c[a].1 <= hi,
    ensures
        keys_unique(without_customer(c, p)),
        forall|a: int|
            0 <= a < without_customer(c, p).len() ==> 1 <= #[trigger] without_customer(c, p)[a].1 <= hi,
        key_pos(c, p) is None ==> without_customer(c, p) == c,
{
    lemma_key_pos_from(c, p, 0);
    if let Some(j) = key_pos(c, p) {
        lemma_remove_unique(c, j);
        c.remove_ensures(j);
        let r = c.remove(j);
        assert forall|a: int| 0 <= a < r.len() implies 1 <= #[trigger] r[a].1 <= hi by {
            let ia = if a < j { a } else { a + 1 };
            assert(r[a] == c[ia]);
        }
    }
}

proof fn lemma_leave_kept(v: ShopsView, p: PlayerId)
    requires
        shops_wf(v),
    ensures
        keys_within(leave_kept(v, p), v),
        shops_wf(leave_kept(v, p)),
    decreases v.len(),
{
    if v.len() > 0 {
        let d = v.drop_last();
        assert(shops_wf(d)) by {
            assert forall|i: int| 0 <= i < d.len() implies holds_within(#[trigger] d[i].1, 4) by {
                assert(d[i] == v[i]);
            }
        }
        lemma_leave_kept(d, p);
        let rest = leave_kept(d, p);
        let t = leave_kept(v, p);
        let last = v[v.len() - 1];
        lemma_without_customer(last.1, p, 4);
        assert forall|k: int| #![trigger t[k]] 0 <= k < t.len() implies exists|i: int| 0 <= i < v.len() && t[k].0 == #[trigger] v[i].0 by {
            if k < rest.len() {
                let i = choose|i: int| 0 <= i < d.len() && rest[k].0 == #[trigger] d[i].0;
                assert(t[k] == rest[k] && v[i] == d[i]);
            } else {
                assert(t[k].0 == v[v.len() - 1].0);
            }
        }
        assert forall|i: int, j: int| 0 <= i < j < t.len() implies #[trigger] t[i].0 != #[trigger] t[j].0 by {
            if j == rest.len() {
                let a = choose|a: int| 0 <= a < d.len() && rest[i].0 == #[trigger] d[a].0;
                assert(v[a] == d[a]);
                assert(t[j].0 == v[v.len() - 1].0);
            }
        }
        assert forall|i: int| 0 <= i < t.len() implies holds_within(#[trigger] t[i].1, 4) by {
            if i == rest.len() {
                assert(t[i].1 == without_customer(last.1, p));
            }
        }
    }
}

/// Opening, closing and clearing windows keep the table's invariant: each
/// NPC listed once, with at least one customer, each customer once,
/// holding it by one to `SHOP_HOLD_TICKS` ticks.
pub proof fn lemma_shop_ops_keep_wf(v: ShopsView, m: PlayerId, p: PlayerId)
    requires
        shops_wf(v),
    ensures
        shops_wf(open_view(v, m, p)),
        shops_wf(close_view(v, p, m).0),
        shops_wf(leave_kept(without_shop(v, p), p)),
{
    lemma_key_pos_from(v, m, 0);
    lemma_key_pos_from(v, p, 0);
    // Opening.
    match key_pos(v, m) {
        Some(k) => {
            lemma_key_pos_from(v[k].1, p, 0);
            if key_pos(v[k].1, p) is None {
                let c = v[k].1.push((p, SHOP_HOLD_TICKS));
                assert(holds_within(c, 4)) by {
                    assert forall|a: int, b: int| 0 <= a < b < c.len() implies #[trigger] c[a].0 != #[trigger] c[b].0 by {
                        if b == c.len() - 1 {
                            assert(c[a] == v[k].1[a]);
                        } else {
                            assert(c[a] == v[k].1[a] && c[b] == v[k].1[b]);
                        }
                    }
                    assert forall|a: int| 0 <= a < c.len() implies 1 <= #[trigger] c[a].1 <= 4 by {
                        if a < c.len() - 1 {
                            assert(c[a] == v[k].1[a]);
                        }
                    }
                }
                let w = open_view(v, m, p);
                assert(w == v.update(k, (m, c)));
                assert forall|i: int| 0 <= i < w.len() implies holds_within(#[trigger] w[i].1, 4) by {
                    if i != k {
                        assert(w[i] == v[i]);
                    }
                }
            }
        },
        None => {
            let w = open_view(v, m, p);
            let c = seq![(p, SHOP_HOLD_TICKS)];
            assert(holds_within(c, 4));
            assert forall|i: int| 0 <= i < w.len() implies holds_within(#[trigger] w[i].1, 4) by {
                if i < v.len() {
                    assert(w[i] == v[i]);
                } else {
                    assert(w[i].1 == c);
                }
            }
            assert forall|i: int, j: int| 0 <= i < j < w.len() implies #[trigger] w[i].0 != #[trigger] w[j].0 by {
                if j == v.len() {
                    assert(w[i] == v[i]);
                } else {
                    assert(w[i] == v[i] && w[j] == v[j]);
                }
            }
        },
    }
    // Closing.
    if let Some(k) = key_pos(v, m) {
        lemma_without_customer(v[k].1, p, 4);
        let c = without_customer(v[k].1, p);
        if c.len() == 0 {
            lemma_remove_unique(v, k);
            v.remove_ensures(k);
            let w = v.remove(k);
            assert forall|i: int| 0 <= i < w.len() implies holds_within(#[trigger] w[i].1, 4) by {
                let ii = if i < k { i } else { i + 1 };
                assert(w[i] == v[ii]);
            }
        } else {
            let w = v.update(k, (m, c));
            assert forall|i: int| 0 <= i < w.len() implies holds_within(#[trigger] w[i].1, 4) by {
                if i != k {
                    assert(w[i] == v[i]);
                }
            }
        }
    }
    // A player leaving.
    let v1 = without_shop(v, p);
    if let Some(k) = key_pos(v, p) {
        lemma_remove_unique(v, k);
        v.remove_ensures(k);
        assert forall|i: int| 0 <= i < v1.len() implies holds_within(#[trigger] v1[i].1, 4) by {
            let ii = if i < k { i } else { i + 1 };
            assert(v1[i] == v[ii]);
        }
    }
    lemma_leave_kept(v1, p);
}

impl OpenShops {
    /// No trade window is open.
    pub fn new() -> (r: OpenShops)
        ensures
            r@ == Seq::<(PlayerId, Seq<(PlayerId, u8)>)>::empty(),
    {
        let r = OpenShops { shops: Vec::new() };
        assert(r@ =~= Seq::<(PlayerId, Seq<(PlayerId, u8)>)>::empty());
        r
    }

    /// Count down every open trade window's hold by one tick; release (and
    /// return) the NPCs whose windows all ran out.
    pub fn tick(&mut self) -> (freed: Vec<PlayerId>)
        ensures
            final(self)@ == tick_view(old(self)@),
            freed@ == tick_freed(old(self)@),
    {
        let ghost v = self@;
        let mut kept: Vec<OpenShop> = Vec::new();
        let mut freed: Vec<PlayerId> = Vec::new();
        let mut i: usize = 0;
        while i < self.shops.len()
            invariant
                0 <= i <= self.shops@.len(),
                v == self@,
                kept@.map_values(|o: OpenShop| (o.merchant, o.customers@)) == tick_view(v.subrange(0, i as int)),
                freed@ == tick_freed(v.subrange(0, i as int)),
            decreases self.shops@.len() - i,
        {
            let shop = &self.shops[i];
            let mut c: Vec<(PlayerId, u8)> = Vec::new();
            let mut j: usize = 0;
            while j < shop.customers.len()
                invariant
                    0 <= j <= shop.customers@.len(),
                    c@ == tick_customers(shop.customers@.subrange(0, j as int)),
                decreases shop.customers@.len() - j,
            {
                let (p, t) = shop.customers[j];
                proof {
                    assert(shop.customers@.subrange(0, j + 1).drop_last() =~= shop.customers@.subrange(0, j as int));
                }
                if t > 1 {
                    c.push((p, t - 1));
                }
                j = j + 1;
            }
            proof {
                assert(shop.customers@.subrange(0, shop.customers@.len() as int) =~= shop.customers@);
                assert(v.subrange(0, i + 1).drop_last() =~= v.subrange(0, i as int));
                assert(v[i as int] == (shop.merchant, shop.customers@));
            }
            let ghost before = kept@;
            if c.len() > 0 {
                kept.push(OpenShop { merchant: shop.merchant, customers: c });
                proof {
                    assert(kept@.map_values(|o: OpenShop| (o.merchant, o.customers@)) =~= before.map_values(
                        |o: OpenShop| (o.merchant, o.customers@),
                    ).push((v[i as int].0, tick_customers(v[i as int].1))));
                }
            } else {
                freed.push(shop.merchant);
            }
            i = i + 1;
        }
        proof {
            assert(v.subrange(0, v.len() as int) =~= v);
        }
        self.shops = kept;
        freed
    }

    /// Position of NPC `m`'s shop.
    fn shop_pos(&self, m: PlayerId) -> (r: Option<usize>)
        ensures
            r matches Some(k) ==> k < self.shops@.len() && key_pos(self@, m) == Some(k as int),
            r is None ==> key_pos(self@, m) is None,
    {
        proof {
            lemma_key_pos_from(self@, m, 0);
        }
        let mut i: usize = 0;
        while i < self.shops.len()
            invariant
                0 <= i <= self.shops@.len(),
                key_pos(self@, m) == key_pos_from(self@, m, i as int),
            decreases self.shops@.len() - i,
        {
            if self.shops[i].merchant == m {
                return Some(i);
            }
            i = i + 1;
        }
        None
    }

    /// Player `p` opened NPC `m`'s trade window. Returns whether `m` just
    /// became busy (it had no customer before).
    pub fn open(&mut self, m: PlayerId, p: PlayerId) -> (became_busy: bool)
        ensures
            final(self)@ == open_view(old(self)@, m, p),
            became_busy == open_made_busy(old(self)@, m),
    {
        let ghost v = self@;
        match self.shop_pos(m) {
            Some(k) => {
                let was_empty = self.shops[k].customers.len() == 0;
                proof {
                    lemma_key_pos_from(v, m, 0);
                }
                if find_key(&self.shops[k].customers, p).is_none() {
                    let mut shop = self.shops.remove(k);
                    shop.customers.push((p, SHOP_HOLD_TICKS));
                    self.shops.insert(k, shop);
                    proof {
                        assert(self@ =~= v.update(k as int, (m, v[k as int].1.push((p, SHOP_HOLD_TICKS)))));
                    }
                }
                was_empty
            },
            None => {
                let mut holds: Vec<(PlayerId, u8)> = Vec::new();
                holds.push((p, SHOP_HOLD_TICKS));
                assert(holds@ =~= seq![(p, SHOP_HOLD_TICKS)]);
                self.shops.push(OpenShop { merchant: m, customers: holds });
                proof {
                    assert(self@ =~= v.push((m, seq![(p, SHOP_HOLD_TICKS)])));
                }
                true
            },
        }
    }

    /// Player `p` closed NPC `m`'s trade window. Returns whether `m` is now
    /// free (no customer left).
    pub fn close(&mut self, p: PlayerId, m: PlayerId) -> (became_free: bool)
        ensures
            final(self)@ == close_view(old(self)@, p, m).0,
            became_free == close_view(old(self)@, p, m).1,
    {
        let ghost v = self@;
        match self.shop_pos(m) {
            None => false,
            Some(k) => {
                proof {
                    lemma_key_pos_from(v, m, 0);
                }
                let mut shop = self.shops.remove(k);
                if let Some(j) = find_key(&shop.customers, p) {
                    shop.customers.remove(j);
                }
                assert(shop.customers@ == without_customer(v[k as int].1, p));
                if shop.customers.len() == 0 {
                    proof {
                        assert(self@ =~= v.remove(k as int));
                    }
                    true
                } else {
                    self.shops.insert(k, shop);
                    proof {
                        assert(self@ =~= v.update(k as int, (m, without_customer(v[k as int].1, p))));
                    }
                    false
                }
            },
        }
    }

    /// Drop a disconnecting player from all shop tracking: its own shop, if
    /// it traded, is forgotten; as a customer it leaves every window, and
    /// the NPCs that leaves without customers are freed (and returned).
    pub fn clear_player(&mut self, p: PlayerId) -> (freed: Vec<PlayerId>)
        ensures
            final(self)@ == leave_kept(without_shop(old(self)@, p), p),
            freed@ == leave_freed(without_shop(old(self)@, p), p),
    {
        if let Some(k) = self.shop_pos(p) {
            let ghost v0 = self@;
            self.shops.remove(k);
            proof {
                assert(self@ =~= v0.remove(k as int));
            }
        }
        let ghost v = self@;
        let mut kept: Vec<OpenShop> = Vec::new();
        let mut freed: Vec<PlayerId> = Vec::new();
        let mut i: usize = 0;
        while i < self.shops.len()
            invariant
                0 <= i <= self.shops@.len(),
                v == self@,
                kept@.map_values(|o: OpenShop| (o.merchant, o.customers@)) == leave_kept(v.subrange(0, i as int), p),
                freed@ == leave_freed(v.subrange(0, i as int), p),
            decreases self.shops@.len() - i,
        {
            let merchant = self.shops[i].merchant;
            let mut c = copy_holds(&self.shops[i].customers);
            proof {
                assert(c@ == self.shops@[i as int].customers@);
                assert(v[i as int] == (merchant, c@));
                assert(v.subrange(0, i + 1).drop_last() =~= v.subrange(0, i as int));
            }
            let removed = match find_key(&c, p) {
                Some(j) => {
                    c.remove(j);
                    true
                },
                None => false,
            };
            assert(c@ == without_customer(v[i as int].1, p));
            let ghost before = kept@;
            if removed && c.len() == 0 {
                freed.push(merchant);
            } else {
                kept.push(OpenShop { merchant, customers: c });
                proof {
                    assert(kept@.map_values(|o: OpenShop| (o.merchant, o.customers@)) =~= before.map_values(
                        |o: OpenShop| (o.merchant, o.customers@),
                    ).push((merchant, without_customer(v[i as int].1, p))));
                }
            }
            i = i + 1;
        }
        proof {
            assert(v.subrange(0, v.len() as int) =~= v);
        }
        self.shops = kept;
        freed
    }
}

} // verus!
