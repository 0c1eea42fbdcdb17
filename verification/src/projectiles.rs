//! The world grid of projectiles: each cell, named by its integer
//! coordinates, holds the projectiles inside it. After projectiles move,
//! those that left their cell are handed over to the cell they are now in.
//!
//! The grid is a vector of cells with distinct keys: vstd models what a
//! `HashMap` holds only for keys whose hashing it specifies, integers and
//! `bool`, and a key here is a triple of integers.
use vstd::prelude::*;
use vstd::multiset::Multiset;

verus! {

broadcast use vstd::multiset::group_multiset_axioms;

/// The integer coordinates of a grid cell.
pub type CellKey = (i32, i32, i32);

/// No two cells of the grid have the same coordinates.
pub open spec fn keys_distinct<P>(cells: Seq<(CellKey, Vec<P>)>) -> bool {
    forall|i: int, j: int| 0 <= i < j < cells.len() ==> cells[i].0 != cells[j].0
}

/// The projectiles `ps` of the cell `key`, each paired with that key.
pub open spec fn cell_items<P>(key: CellKey, ps: Seq<P>) -> Multiset<(CellKey, P)> {
    ps.map_values(|p: P| (key, p)).to_multiset()
}

/// Every projectile of the grid, paired with the key of its cell.
pub open spec fn grid_items<P>(cells: Seq<(CellKey, Vec<P>)>) -> Multiset<(CellKey, P)>
    decreases cells.len(),
{
    if cells.len() == 0 {
        Multiset::empty()
    } else {
        grid_items(cells.drop_last()).add(cell_items(cells.last().0, cells.last().1@))
    }
}

/// The projectiles `ps`, each paired with its new key from `keys`.
pub open spec fn rekeyed_items<P>(keys: Seq<CellKey>, ps: Seq<P>) -> Multiset<(CellKey, P)> {
    Seq::new(ps.len(), |j: int| (keys[j], ps[j])).to_multiset()
}

/// Every projectile of the grid, paired with the key of the cell it has moved
/// into, `new_keys[i][j]` being the new key of projectile `j` of cell `i`.
pub open spec fn regrouped_items<P>(
    cells: Seq<(CellKey, Vec<P>)>,
    new_keys: Seq<Vec<CellKey>>,
) -> Multiset<(CellKey, P)>
    decreases cells.len(),
{
    if cells.len() == 0 {
        Multiset::empty()
    } else {
        regrouped_items(cells.drop_last(), new_keys.drop_last()).add(
            rekeyed_items(new_keys.last()@, cells.last().1@),
        )
    }
}

/// An empty sequence holds nothing.
proof fn lemma_empty_to_multiset<A>(s: Seq<A>)
    requires
        s.len() == 0,
    ensures
        s.to_multiset() == Multiset::<A>::empty(),
{
    s.to_multiset_ensures();
    assert(s.to_multiset() =~= Multiset::<A>::empty());
}

/// One more item on each side of a balance of multisets keeps it balanced,
/// whichever part of the left side takes it.
proof fn lemma_balance_insert<A>(
    c: Multiset<A>,
    m: Multiset<A>,
    base: Multiset<A>,
    r: Multiset<A>,
    x: A,
)
    requires
        c.add(m) == base.add(r),
    ensures
        c.insert(x).add(m) == base.add(r.insert(x)),
        c.add(m.insert(x)) == base.add(r.insert(x)),
{
    broadcast use vstd::multiset::group_multiset_axioms;

    assert forall|y: A| #[trigger] c.insert(x).add(m).count(y) == base.add(r.insert(x)).count(y) by {
        let s = Multiset::singleton(x);
        assert(c.add(m).count(y) == base.add(r).count(y));
        assert(c.add(m).count(y) == c.count(y) + m.count(y));
        assert(base.add(r).count(y) == base.count(y) + r.count(y));
        assert(c.add(s).count(y) == c.count(y) + s.count(y));
        assert(r.add(s).count(y) == r.count(y) + s.count(y));
        assert(c.add(s).add(m).count(y) == c.add(s).count(y) + m.count(y));
        assert(base.add(r.add(s)).count(y) == base.count(y) + r.add(s).count(y));
    }
    assert forall|y: A| #[trigger] c.add(m.insert(x)).count(y) == base.add(r.insert(x)).count(y) by {
        let s = Multiset::singleton(x);
        assert(c.add(m).count(y) == base.add(r).count(y));
        assert(c.add(m).count(y) == c.count(y) + m.count(y));
        assert(base.add(r).count(y) == base.count(y) + r.count(y));
        assert(m.add(s).count(y) == m.count(y) + s.count(y));
        assert(r.add(s).count(y) == r.count(y) + s.count(y));
        assert(c.add(m.add(s)).count(y) == c.count(y) + m.add(s).count(y));
        assert(base.add(r.add(s)).count(y) == base.count(y) + r.add(s).count(y));
    }
    assert(c.insert(x).add(m) =~= base.add(r.insert(x)));
    assert(c.add(m.insert(x)) =~= base.add(r.insert(x)));
}

/// Moving the items of `mb` from the pending side into place keeps the
/// balance: `g0` plus what was pending was `r0`; `c` plus what is pending now
/// is what was pending plus `rk`.
proof fn lemma_balance_add<A>(
    g0: Multiset<A>,
    c: Multiset<A>,
    m: Multiset<A>,
    mb: Multiset<A>,
    r0: Multiset<A>,
    rk: Multiset<A>,
)
    requires
        g0.add(mb) == r0,
        c.add(m) == mb.add(rk),
    ensures
        g0.add(c).add(m) == r0.add(rk),
{
    broadcast use vstd::multiset::group_multiset_axioms;

    assert forall|y: A| #[trigger] g0.add(c).add(m).count(y) == r0.add(rk).count(y) by {
        assert(g0.add(mb).count(y) == g0.count(y) + mb.count(y));
        assert(c.add(m).count(y) == c.count(y) + m.count(y));
        assert(mb.add(rk).count(y) == mb.count(y) + rk.count(y));
        assert(g0.add(c).count(y) == g0.count(y) + c.count(y));
        assert(g0.add(c).add(m).count(y) == g0.add(c).count(y) + m.count(y));
        assert(r0.add(rk).count(y) == r0.count(y) + rk.count(y));
    }
    assert(g0.add(c).add(m) =~= r0.add(rk));
}

/// Placing one pending item keeps the balance.
proof fn lemma_place_one<A>(g: Multiset<A>, rest: Multiset<A>, x: A, target: Multiset<A>)
    requires
        g.add(rest.insert(x)) == target,
    ensures
        g.insert(x).add(rest) == target,
{
    broadcast use vstd::multiset::group_multiset_axioms;

    assert forall|y: A| #[trigger] g.insert(x).add(rest).count(y) == target.count(y) by {
        let s = Multiset::singleton(x);
        assert(g.add(rest.add(s)).count(y) == g.count(y) + rest.add(s).count(y));
        assert(rest.add(s).count(y) == rest.count(y) + s.count(y));
        assert(g.add(s).count(y) == g.count(y) + s.count(y));
        assert(g.add(s).add(rest).count(y) == g.add(s).count(y) + rest.count(y));
    }
    assert(g.insert(x).add(rest) =~= target);
}

/// The items from position `m` on are the item at `m` and those after it.
proof fn lemma_skip_step<A>(s: Seq<A>, m: int)
    requires
        0 <= m < s.len(),
    ensures
        s.skip(m).to_multiset() == s.skip(m + 1).to_multiset().insert(s[m]),
{
    broadcast use vstd::multiset::group_multiset_axioms;

    let t = s.skip(m);
    let rest = s.skip(m + 1);
    let x = s[m];
    t.to_multiset_ensures();
    assert(t.remove(0) =~= rest);
    assert(t[0] == x);
    assert(t.contains(x));
    assert forall|y: A| #[trigger] rest.to_multiset().insert(x).count(y) == t.to_multiset().count(
        y,
    ) by {
        let sx = Multiset::singleton(x);
        assert(rest.to_multiset() == t.to_multiset().sub(sx));
        assert(t.to_multiset().sub(sx).count(y) == if t.to_multiset().count(y) >= sx.count(y) {
            t.to_multiset().count(y) - sx.count(y)
        } else {
            0
        });
        assert(rest.to_multiset().add(sx).count(y) == rest.to_multiset().count(y) + sx.count(y));
        if y == x {
            assert(sx.count(y) == 1);
        } else {
            assert(sx.count(y) == 0);
        }
    }
    assert(rest.to_multiset().insert(x) =~= t.to_multiset());
}

/// One more projectile in a cell adds one item of that cell.
proof fn lemma_cell_items_push<P>(key: CellKey, ps: Seq<P>, p: P)
    ensures
        cell_items(key, ps.push(p)) == cell_items(key, ps).insert((key, p)),
{
    let f = |q: P| (key, q);
    assert(ps.push(p).map_values(f) =~= ps.map_values(f).push((key, p)));
    ps.map_values(f).to_multiset_ensures();
}

/// One more rekeyed projectile adds its new pair.
proof fn lemma_rekeyed_items_step<P>(keys: Seq<CellKey>, ps: Seq<P>, j: int)
    requires
        0 <= j < ps.len(),
        j < keys.len(),
    ensures
        rekeyed_items(keys.take(j + 1), ps.take(j + 1)) == rekeyed_items(keys.take(j), ps.take(j)).insert(
            (keys[j], ps[j]),
        ),
{
    let a = Seq::new(ps.take(j).len(), |t: int| (keys.take(j)[t], ps.take(j)[t]));
    let b = Seq::new(ps.take(j + 1).len(), |t: int| (keys.take(j + 1)[t], ps.take(j + 1)[t]));
    assert(b =~= a.push((keys[j], ps[j])));
    a.to_multiset_ensures();
}

/// Adding projectile `p` to cell `j` adds one item of that cell to the grid.
proof fn lemma_grid_items_push_into<P>(
    before: Seq<(CellKey, Vec<P>)>,
    after: Seq<(CellKey, Vec<P>)>,
    j: int,
    p: P,
)
    requires
        0 <= j < before.len(),
        after.len() == before.len(),
        forall|t: int| 0 <= t < before.len() && t != j ==> after[t] == before[t],
        after[j].0 == before[j].0,
        after[j].1@ == before[j].1@.push(p),
    ensures
        grid_items(after) == grid_items(before).insert((before[j].0, p)),
    decreases before.len(),
{
    lemma_cell_items_push(before[j].0, before[j].1@, p);
    if j == before.len() - 1 {
        assert(after.drop_last() =~= before.drop_last());
    } else {
        lemma_grid_items_push_into(before.drop_last(), after.drop_last(), j, p);
        assert(after.last() == before.last());
    }
    assert(grid_items(after) =~= grid_items(before).insert((before[j].0, p)));
}

/// A new cell holding only `p` adds one item of that cell to the grid.
proof fn lemma_grid_items_new_cell<P>(cells: Seq<(CellKey, Vec<P>)>, cell: (CellKey, Vec<P>), p: P)
    requires
        cell.1@ == seq![p],
    ensures
        grid_items(cells.push(cell)) == grid_items(cells).insert((cell.0, p)),
{
    assert(cells.push(cell).drop_last() =~= cells);
    lemma_cell_items_push(cell.0, Seq::<P>::empty(), p);
    assert(Seq::<P>::empty().push(p) =~= cell.1@);
    lemma_empty_to_multiset(Seq::<P>::empty().map_values(|q: P| (cell.0, q)));
    assert(cell_items(cell.0, cell.1@) =~= Multiset::<(CellKey, P)>::empty().insert((cell.0, p)));
    assert(grid_items(cells.push(cell)) =~= grid_items(cells).insert((cell.0, p)));
}

/// Every projectile of the grid, whatever its cell.
pub open spec fn grid_projectiles<P>(cells: Seq<(CellKey, Vec<P>)>) -> Multiset<P>
    decreases cells.len(),
{
    if cells.len() == 0 {
        Multiset::empty()
    } else {
        grid_projectiles(cells.drop_last()).add(cells.last().1@.to_multiset())
    }
}

/// The projectiles of a list of (new key, projectile) pairs.
pub open spec fn moved_projectiles<P>(moves: Seq<(CellKey, P)>) -> Multiset<P> {
    moves.map_values(|x: (CellKey, P)| x.1).to_multiset()
}

/// The projectiles of `ps` that stay in the cell `key`, in their order:
/// those whose new key in `keys` is `key`.
pub open spec fn kept_in_cell<P>(key: CellKey, keys: Seq<CellKey>, ps: Seq<P>) -> Seq<P>
    decreases ps.len(),
{
    if ps.len() == 0 {
        Seq::empty()
    } else {
        let rest = kept_in_cell(key, keys, ps.drop_last());
        if keys[ps.len() - 1] == key {
            rest.push(ps.last())
        } else {
            rest
        }
    }
}

/// One more pending pair adds its projectile.
proof fn lemma_moved_push<P>(moves: Seq<(CellKey, P)>, x: (CellKey, P))
    ensures
        moved_projectiles(moves.push(x)) == moved_projectiles(moves).insert(x.1),
{
    let f = |y: (CellKey, P)| y.1;
    assert(moves.push(x).map_values(f) =~= moves.map_values(f).push(x.1));
    moves.map_values(f).to_multiset_ensures();
}

/// The pending projectiles from position `m` on are the one at `m` and
/// those after it.
proof fn lemma_moved_skip<P>(moves: Seq<(CellKey, P)>, m: int)
    requires
        0 <= m < moves.len(),
    ensures
        moved_projectiles(moves.skip(m)) == moved_projectiles(moves.skip(m + 1)).insert(moves[m].1),
{
    let f = |y: (CellKey, P)| y.1;
    let t = moves.map_values(f);
    assert(t.skip(m) =~= moves.skip(m).map_values(f));
    assert(t.skip(m + 1) =~= moves.skip(m + 1).map_values(f));
    lemma_skip_step(t, m);
}

/// One more element of a prefix adds that element.
proof fn lemma_take_step<A>(s: Seq<A>, j: int)
    requires
        0 <= j < s.len(),
    ensures
        s.take(j + 1).to_multiset() == s.take(j).to_multiset().insert(s[j]),
{
    assert(s.take(j + 1) =~= s.take(j).push(s[j]));
    s.take(j).to_multiset_ensures();
}

/// Adding projectile `p` to cell `j` adds `p` to the grid's projectiles.
proof fn lemma_grid_projectiles_push_into<P>(
    before: Seq<(CellKey, Vec<P>)>,
    after: Seq<(CellKey, Vec<P>)>,
    j: int,
    p: P,
)
    requires
        0 <= j < before.len(),
        after.len() == before.len(),
        forall|t: int| 0 <= t < before.len() && t != j ==> after[t] == before[t],
        after[j].1@ == before[j].1@.push(p),
    ensures
        grid_projectiles(after) == grid_projectiles(before).insert(p),
    decreases before.len(),
{
    before[j].1@.to_multiset_ensures();
    if j == before.len() - 1 {
        assert(after.drop_last() =~= before.drop_last());
    } else {
        lemma_grid_projectiles_push_into(before.drop_last(), after.drop_last(), j, p);
        assert(after.last() == before.last());
    }
    assert(grid_projectiles(after) =~= grid_projectiles(before).insert(p));
}

/// A new cell holding only `p` adds `p` to the grid's projectiles.
proof fn lemma_grid_projectiles_new_cell<P>(
    cells: Seq<(CellKey, Vec<P>)>,
    cell: (CellKey, Vec<P>),
    p: P,
)
    requires
        cell.1@ == Seq::<P>::empty().push(p),
    ensures
        grid_projectiles(cells.push(cell)) == grid_projectiles(cells).insert(p),
{
    assert(cells.push(cell).drop_last() =~= cells);
    Seq::<P>::empty().to_multiset_ensures();
    lemma_empty_to_multiset(Seq::<P>::empty());
    assert(cell.1@.to_multiset() =~= Multiset::<P>::empty().insert(p));
    assert(grid_projectiles(cells.push(cell)) =~= grid_projectiles(cells).insert(p));
}

/// Whether two cell keys are the same.
fn same_key(a: CellKey, b: CellKey) -> (r: bool)
    ensures
        r == (a == b),
{
    a.0 == b.0 && a.1 == b.1 && a.2 == b.2
}

/// The index of the cell with coordinates `key`, if there is one.
fn find_cell<P>(cells: &Vec<(CellKey, Vec<P>)>, key: CellKey) -> (r: Option<usize>)
    ensures
        match r {
            Some(j) => j < cells@.len() && cells@[j as int].0 == key,
            None => forall|t: int| 0 <= t < cells@.len() ==> cells@[t].0 != key,
        },
{
    let mut j: usize = 0;
    while j < cells.len()
        invariant
            j <= cells@.len(),
            forall|t: int| 0 <= t < j ==> cells@[t].0 != key,
        decreases cells@.len() - j,
    {
        if same_key(cells[j].0, key) {
            return Some(j);
        }
        j = j + 1;
    }
    None
}

/// Hands every projectile over to the cell it is now in: projectile `j` of
/// cell `i` belongs to the cell `new_keys[i][j]`. Projectiles that stay keep
/// their order in their cell; the others are appended to their new cell,
/// which is added after the existing ones when the grid has no such cell.
/// Every cell stays, even when it ends up empty.
pub fn regroup_cells<P: Copy>(cells: &mut Vec<(CellKey, Vec<P>)>, new_keys: &Vec<Vec<CellKey>>)
    requires
        keys_distinct(old(cells)@),
        new_keys@.len() == old(cells)@.len(),
        forall|i: int|
            0 <= i < old(cells)@.len() ==> (#[trigger] new_keys@[i])@.len() == old(
                cells,
            )@[i].1@.len(),
    ensures
        keys_distinct(final(cells)@),
        final(cells)@.len() >= old(cells)@.len(),
        forall|i: int| 0 <= i < old(cells)@.len() ==> final(cells)@[i].0 == old(cells)@[i].0,
        forall|i: int|
            0 <= i < old(cells)@.len() ==> kept_in_cell(
                old(cells)@[i].0,
                new_keys@[i]@,
                old(cells)@[i].1@,
            ).is_prefix_of(#[trigger] final(cells)@[i].1@),
        forall|i: int|
            old(cells)@.len() <= i < final(cells)@.len() ==> (#[trigger] final(cells)@[i]).1@.len()
                > 0,
        grid_items(final(cells)@) == regrouped_items(old(cells)@, new_keys@),
        grid_projectiles(final(cells)@) == grid_projectiles(old(cells)@),
{
    let ghost start = cells@;
    let n = cells.len();
    let mut moves: Vec<(CellKey, P)> = Vec::new();
    proof {
        lemma_empty_to_multiset(moves@);
        assert(grid_items(cells@.take(0)) == Multiset::<(CellKey, P)>::empty());
        assert(regrouped_items(start.take(0), new_keys@.take(0)) == Multiset::<(
            CellKey,
            P,
        )>::empty());
        assert(Multiset::<(CellKey, P)>::empty().add(Multiset::<(CellKey, P)>::empty())
            =~= Multiset::<(CellKey, P)>::empty());
        lemma_empty_to_multiset(moves@.map_values(|x: (CellKey, P)| x.1));
        assert(grid_projectiles(cells@.take(0)) == Multiset::<P>::empty());
        assert(grid_projectiles(start.take(0)) == Multiset::<P>::empty());
        assert(Multiset::<P>::empty().add(Multiset::<P>::empty()) =~= Multiset::<P>::empty());
    }
    let mut i: usize = 0;
    while i < n
        invariant
            n == start.len(),
            keys_distinct(start),
            cells@.len() == n,
            i <= n,
            new_keys@.len() == n,
            forall|t: int| 0 <= t < n ==> (#[trigger] new_keys@[t])@.len() == start[t].1@.len(),
            forall|t: int| 0 <= t < n ==> cells@[t].0 == start[t].0,
            forall|t: int| i <= t < n ==> cells@[t] == start[t],
            forall|t: int|
                0 <= t < i ==> (#[trigger] cells@[t]).1@ == kept_in_cell(
                    start[t].0,
                    new_keys@[t]@,
                    start[t].1@,
                ),
            grid_items(cells@.take(i as int)).add(moves@.to_multiset()) == regrouped_items(
                start.take(i as int),
                new_keys@.take(i as int),
            ),
            grid_projectiles(cells@.take(i as int)).add(moved_projectiles(moves@))
                == grid_projectiles(start.take(i as int)),
        decreases n - i,
    {
        let key = cells[i].0;
        let count = cells[i].1.len();
        let ghost ps = start[i as int].1@;
        let ghost ks = new_keys@[i as int]@;
        let ghost moves_before = moves@.to_multiset();
        let ghost moved_before = moved_projectiles(moves@);
        let mut kept: Vec<P> = Vec::new();
        proof {
            lemma_empty_to_multiset(kept@);
            lemma_empty_to_multiset(ps.take(0));
            assert(kept@ =~= kept_in_cell(key, ks, ps.take(0)));
            assert(kept@.to_multiset().add(moved_projectiles(moves@)) =~= moved_before.add(
                ps.take(0).to_multiset(),
            ));
            lemma_empty_to_multiset(kept@.map_values(|q: P| (key, q)));
            lemma_empty_to_multiset(Seq::new(0, |t: int| (ks.take(0)[t], ps.take(0)[t])));
            assert(Seq::new(0, |t: int| (ks.take(0)[t], ps.take(0)[t])) =~= Seq::new(
                ps.take(0).len(),
                |t: int| (ks.take(0)[t], ps.take(0)[t]),
            ));
            assert(cell_items(key, kept@).add(moves@.to_multiset()) =~= moves_before.add(
                rekeyed_items(ks.take(0), ps.take(0)),
            ));
        }
        let mut j: usize = 0;
        while j < count
            invariant
                i < n,
                cells@.len() == n,
                cells@[i as int] == start[i as int],
                key == start[i as int].0,
                ps == start[i as int].1@,
                count == ps.len(),
                ks == new_keys@[i as int]@,
                ks.len() == ps.len(),
                new_keys@.len() == n,
                j <= count,
                grid_items(cells@.take(i as int)).add(moves_before) == regrouped_items(
                    start.take(i as int),
                    new_keys@.take(i as int),
                ),
                cell_items(key, kept@).add(moves@.to_multiset()) == moves_before.add(
                    rekeyed_items(ks.take(j as int), ps.take(j as int)),
                ),
                grid_projectiles(cells@.take(i as int)).add(moved_before) == grid_projectiles(
                    start.take(i as int),
                ),
                kept@ == kept_in_cell(key, ks, ps.take(j as int)),
                kept@.to_multiset().add(moved_projectiles(moves@)) == moved_before.add(
                    ps.take(j as int).to_multiset(),
                ),
            decreases count - j,
        {
            let p = cells[i].1[j];
            let k = new_keys[i][j];
            let ghost kept_before = kept@;
            let ghost moves_seq_before = moves@;
            proof {
                lemma_rekeyed_items_step(ks, ps, j as int);
                assert(p == ps[j as int]);
                assert(k == ks[j as int]);
                lemma_take_step(ps, j as int);
                lemma_balance_insert(
                    kept@.to_multiset(),
                    moved_projectiles(moves@),
                    moved_before,
                    ps.take(j as int).to_multiset(),
                    p,
                );
                assert(ps.take(j + 1).drop_last() =~= ps.take(j as int));
                kept@.to_multiset_ensures();
                lemma_moved_push(moves@, (k, p));
            }
            if same_key(k, key) {
                proof {
                    lemma_cell_items_push(key, kept@, p);
                }
                kept.push(p);
                assert(cell_items(key, kept@) == cell_items(key, kept_before).insert((k, p)));
                assert(moves@ == moves_seq_before);
            } else {
                proof {
                    moves@.to_multiset_ensures();
                }
                moves.push((k, p));
                assert(moves@.to_multiset() == moves_seq_before.to_multiset().insert((k, p)));
                assert(kept@ == kept_before);
            }
            proof {
                let r0 = rekeyed_items(ks.take(j as int), ps.take(j as int));
                let r1 = rekeyed_items(ks.take(j + 1), ps.take(j + 1));
                assert(cell_items(key, kept_before).add(moves_seq_before.to_multiset())
                    == moves_before.add(r0));
                assert(r1 == r0.insert((k, p)));
                lemma_balance_insert(
                    cell_items(key, kept_before),
                    moves_seq_before.to_multiset(),
                    moves_before,
                    r0,
                    (k, p),
                );
                assert(cell_items(key, kept@).add(moves@.to_multiset()) =~= moves_before.add(
                    r1,
                ));
            }
            j = j + 1;
        }
        let ghost before = cells@;
        cells.set(i, (key, kept));
        proof {

            assert(ks.take(count as int) =~= ks);
            assert(ps.take(count as int) =~= ps);
            assert(cells@.take(i + 1).drop_last() =~= before.take(i as int));
            assert(start.take(i + 1).drop_last() =~= start.take(i as int));
            assert(new_keys@.take(i + 1).drop_last() =~= new_keys@.take(i as int));
            assert(cells@.take(i + 1).last() == (key, kept));
            assert(grid_projectiles(cells@.take(i + 1)) == grid_projectiles(
                before.take(i as int),
            ).add(kept@.to_multiset()));
            assert(grid_projectiles(start.take(i + 1)) == grid_projectiles(
                start.take(i as int),
            ).add(ps.to_multiset()));
            lemma_balance_add(
                grid_projectiles(before.take(i as int)),
                kept@.to_multiset(),
                moved_projectiles(moves@),
                moved_before,
                grid_projectiles(start.take(i as int)),
                ps.to_multiset(),
            );
            assert(grid_items(cells@.take(i + 1)) == grid_items(before.take(i as int)).add(
                cell_items(key, kept@),
            ));
            assert(regrouped_items(start.take(i + 1), new_keys@.take(i + 1)) == regrouped_items(
                start.take(i as int),
                new_keys@.take(i as int),
            ).add(rekeyed_items(ks, ps)));
            lemma_balance_add(
                grid_items(before.take(i as int)),
                cell_items(key, kept@),
                moves@.to_multiset(),
                moves_before,
                regrouped_items(start.take(i as int), new_keys@.take(i as int)),
                rekeyed_items(ks, ps),
            );
            assert(grid_items(cells@.take(i + 1)).add(moves@.to_multiset()) =~= regrouped_items(
                start.take(i + 1),
                new_keys@.take(i + 1),
            ));
        }
        i = i + 1;
    }
    proof {
        assert(cells@.take(n as int) =~= cells@);
        assert(start.take(n as int) =~= start);
        assert(new_keys@.take(n as int) =~= new_keys@);
        assert(moves@.skip(0) =~= moves@);
        assert forall|t: int| 0 <= t < n implies kept_in_cell(
            start[t].0,
            new_keys@[t]@,
            start[t].1@,
        ).is_prefix_of(#[trigger] cells@[t].1@) by {
            assert(cells@[t].1@ =~= cells@[t].1@.subrange(0, cells@[t].1@.len() as int));
        }
        assert(keys_distinct(cells@)) by {
            assert forall|a: int, b: int| 0 <= a < b < cells@.len() implies cells@[a].0
                != cells@[b].0 by {
                assert(cells@[a].0 == start[a].0 && cells@[b].0 == start[b].0);
            }
        }
    }
    let ghost target = regrouped_items(start, new_keys@);
    let mut m: usize = 0;
    while m < moves.len()
        invariant
            n == start.len(),
            cells@.len() >= n,
            m <= moves@.len(),
            forall|t: int| 0 <= t < n ==> cells@[t].0 == start[t].0,
            keys_distinct(cells@),
            grid_items(cells@).add(moves@.skip(m as int).to_multiset()) == target,
            grid_projectiles(cells@).add(moved_projectiles(moves@.skip(m as int)))
                == grid_projectiles(start),
            new_keys@.len() == n,
            forall|t: int|
                0 <= t < n ==> kept_in_cell(
                    start[t].0,
                    new_keys@[t]@,
                    start[t].1@,
                ).is_prefix_of(#[trigger] cells@[t].1@),
            forall|t: int| n <= t < cells@.len() ==> (#[trigger] cells@[t]).1@.len() > 0,
        decreases moves@.len() - m,
    {
        let (k, p) = moves[m];
        let ghost before = cells@;
        proof {
            lemma_skip_step(moves@, m as int);
            lemma_place_one(
                grid_items(before),
                moves@.skip(m + 1).to_multiset(),
                (k, p),
                target,
            );
            lemma_moved_skip(moves@, m as int);
            lemma_place_one(
                grid_projectiles(before),
                moved_projectiles(moves@.skip(m + 1)),
                p,
                grid_projectiles(start),
            );
        }
        match find_cell(cells, k) {
            Some(j) => {
                let mut list: Vec<P> = Vec::new();
                std::mem::swap(&mut list, &mut cells[j].1);
                list.push(p);
                cells.set(j, (k, list));
                proof {
                    lemma_grid_items_push_into(before, cells@, j as int, p);
                    lemma_grid_projectiles_push_into(before, cells@, j as int, p);
                    assert forall|t: int| 0 <= t < n implies kept_in_cell(
                        start[t].0,
                        new_keys@[t]@,
                        start[t].1@,
                    ).is_prefix_of(#[trigger] cells@[t].1@) by {
                        if t == j {
                            let kt = kept_in_cell(start[t].0, new_keys@[t]@, start[t].1@);
                            assert(kt.is_prefix_of(before[t].1@));
                            assert(cells@[t].1@.subrange(0, kt.len() as int) =~= before[t].1@.subrange(
                                0,
                                kt.len() as int,
                            ));
                        }
                    }
                }
            },
            None => {
                let mut list: Vec<P> = Vec::new();
                list.push(p);
                let cell = (k, list);
                cells.push(cell);
                proof {
                    lemma_grid_items_new_cell(before, cell, p);
                    lemma_grid_projectiles_new_cell(before, cell, p);
                }
            },
        }
        m = m + 1;
    }
    proof {
        lemma_empty_to_multiset(moves@.skip(m as int));
        assert(grid_items(cells@).add(Multiset::empty()) =~= grid_items(cells@));
        lemma_empty_to_multiset(moves@.skip(m as int).map_values(|x: (CellKey, P)| x.1));
        assert(grid_projectiles(cells@).add(Multiset::empty()) =~= grid_projectiles(cells@));
    }
}

} // verus!
