//! The tables that a snapshot hands to the directions of a capture.
use vstd::prelude::*;
use vstd::string::*;

use crate::hpack::{field_size, fields_view, table_bytes, Field, FieldView};
use crate::snapshot::{
    conns_view, table_of, text_of, CaptureSnapshot, ConnSnapshotView, DirSnapshot, DirSnapshotView,
};
use crate::text::same_text;

verus! {

/// What a direction starts from.
#[derive(Debug)]
pub struct Seed {
    pub src: String,
    pub dst: String,
    pub entries: Vec<Field>,
    pub max_size: usize,
    pub next_frame_seq: u32,
    pub usable: bool,
    pub reason: Option<String>,
}

/// The same as a mathematical value.
#[verifier::ext_equal]
pub struct SeedView {
    pub entries: Seq<FieldView>,
    pub max_size: usize,
    pub next_frame_seq: u32,
    pub usable: bool,
    pub reason: Option<Seq<char>>,
}

impl View for Seed {
    type V = SeedView;

    open spec fn view(&self) -> SeedView {
        SeedView {
            entries: fields_view(self.entries@),
            max_size: self.max_size,
            next_frame_seq: self.next_frame_seq,
            usable: self.usable,
            reason: text_of(self.reason),
        }
    }
}

/// What a direction is known by: the texts of its source and its destination.
pub type Route = (Seq<char>, Seq<char>);

/// The seed that a direction's snapshot holds.
pub open spec fn seed_of(d: DirSnapshotView) -> SeedView {
    SeedView {
        entries: table_of(d.entries),
        max_size: d.max_table_size,
        next_frame_seq: d.next_frame_seq,
        usable: d.usable,
        reason: d.reason,
    }
}

/// The seeds once those of `dirs` are added. A later one replaces an earlier one
/// of the same route.
pub open spec fn dirs_added(m: Map<Route, SeedView>, dirs: Seq<DirSnapshotView>) -> Map<
    Route,
    SeedView,
>
    decreases dirs.len(),
{
    if dirs.len() == 0 {
        m
    } else {
        dirs_added(m, dirs.drop_last()).insert(
            (dirs.last().src, dirs.last().dst),
            seed_of(dirs.last()),
        )
    }
}

/// The seeds of a snapshot.
pub open spec fn seeds_of(conns: Seq<ConnSnapshotView>) -> Map<Route, SeedView>
    decreases conns.len(),
{
    if conns.len() == 0 {
        Map::empty()
    } else {
        dirs_added(seeds_of(conns.drop_last()), conns.last().dirs)
    }
}

/// Whether the table of a direction's snapshot is one that this machine can
/// address.
pub open spec fn table_fits(d: DirSnapshotView) -> bool {
    table_bytes(table_of(d.entries)) <= usize::MAX
}

/// Whether all tables of a snapshot are.
pub open spec fn tables_fit(conns: Seq<ConnSnapshotView>) -> bool {
    forall|i: int, j: int|
        0 <= i < conns.len() && 0 <= j < conns[i].dirs.len() ==> table_fits(
            #[trigger] conns[i].dirs[j],
        )
}

/// A snapshot holds a table larger than this machine can address.
#[derive(Debug, Clone, Copy, PartialEq, Eq, Structural)]
pub struct TableTooLarge;

impl TableTooLarge {
    /// The error in words.
    pub fn message(&self) -> (r: String)
        ensures
            r@ == "snapshot table too large for this machine"@,
    {
        String::from_str("snapshot table too large for this machine")
    }
}

/// The seeds of a snapshot.
#[derive(Debug)]
pub struct Seeds {
    list: Vec<Seed>,
}

/// The position up to `n` of the last seed of a route, or -1.
spec fn last_of(list: Seq<Seed>, route: Route, n: int) -> int
    decreases n,
{
    if n <= 0 {
        -1
    } else if (list[n - 1].src@, list[n - 1].dst@) == route {
        n - 1
    } else {
        last_of(list, route, n - 1)
    }
}

impl View for Seeds {
    type V = Map<Route, SeedView>;

    closed spec fn view(&self) -> Map<Route, SeedView> {
        Map::new(
            |k: Route| last_of(self.list@, k, self.list@.len() as int) >= 0,
            |k: Route| self.list@[last_of(self.list@, k, self.list@.len() as int)]@,
        )
    }
}

proof fn lemma_part_is_smaller(t: Seq<FieldView>, n: int)
    requires
        0 <= n <= t.len(),
    ensures
        table_bytes(t.take(n)) <= table_bytes(t),
    decreases t.len(),
{
    if n == t.len() {
        assert(t.take(n) =~= t);
    } else {
        lemma_part_is_smaller(t.drop_last(), n);
        assert(t.drop_last().take(n) =~= t.take(n));
    }
}

/// Whether the entries' sizes add up to something this machine can address.
fn fits(fields: &[Field]) -> (r: bool)
    ensures
        r == (table_bytes(fields_view(fields@)) <= usize::MAX),
{
    let ghost all = fields_view(fields@);
    let mut total: usize = 0;
    let mut i: usize = 0;
    assert(all.take(0) =~= Seq::<FieldView>::empty());
    while i < fields.len()
        invariant
            i <= fields@.len(),
            all == fields_view(fields@),
            total == table_bytes(all.take(i as int)),
        decreases fields@.len() - i,
    {
        let f = &fields[i];
        proof {
            assert(all.take(i + 1).drop_last() =~= all.take(i as int));
            assert(all.take(i + 1).last() == f@);
            lemma_part_is_smaller(all, i + 1);
        }
        let size: u128 = f.name.len() as u128 + f.value.len() as u128 + 32;
        assert(size == field_size(f@));
        let sum: u128 = total as u128 + size;
        if sum > usize::MAX as u128 {
            return false;
        }
        total = sum as usize;
        i += 1;
    }
    assert(all.take(all.len() as int) =~= all);
    true
}

proof fn lemma_last_of(list: Seq<Seed>, more: Seed, route: Route, n: int)
    requires
        0 <= n <= list.len(),
    ensures
        last_of(list.push(more), route, n) == last_of(list, route, n),
        last_of(list, route, n) < n,
        last_of(list, route, n) >= 0 ==> {
            let s = list[last_of(list, route, n)];
            (s.src@, s.dst@) == route
        },
    decreases n,
{
    if n > 0 {
        lemma_last_of(list, more, route, n - 1);
    }
}

impl Seeds {
    /// Every table is one that this machine can address.
    pub closed spec fn wf(&self) -> bool {
        forall|i: int|
            0 <= i < self.list@.len() ==> table_bytes(
                fields_view((#[trigger] self.list@[i]).entries@),
            ) <= usize::MAX
    }

    /// No seeds.
    pub fn none() -> (r: Self)
        ensures
            r.wf(),
            r@ == Map::<Route, SeedView>::empty(),
    {
        let r = Seeds { list: Vec::new() };
        assert(r@ =~= Map::<Route, SeedView>::empty());
        r
    }

    /// The seeds of a snapshot.
    pub fn from_snapshot(snap: &CaptureSnapshot) -> (r: Result<Seeds, TableTooLarge>)
        ensures
            match r {
                Ok(s) => s.wf() && s@ == seeds_of(conns_view(snap.conns@)) && tables_fit(
                    conns_view(snap.conns@),
                ),
                Err(_) => !tables_fit(conns_view(snap.conns@)),
            },
    {
        let ghost cs = conns_view(snap.conns@);
        let mut out: Seeds = Seeds::none();
        let mut i: usize = 0;
        while i < snap.conns.len()
            invariant
                i <= snap.conns@.len(),
                cs == conns_view(snap.conns@),
                out.wf(),
                out@ == seeds_of(cs.take(i as int)),
                forall|a: int, b: int|
                    0 <= a < i && 0 <= b < cs[a].dirs.len() ==> table_fits(
                        #[trigger] cs[a].dirs[b],
                    ),
            decreases snap.conns@.len() - i,
        {
            let c = &snap.conns[i];
            let ghost ds = c@.dirs;
            let ghost before = out@;
            let mut j: usize = 0;
            while j < c.dirs.len()
                invariant
                    i < snap.conns@.len(),
                    j <= c.dirs@.len(),
                    cs == conns_view(snap.conns@),
                    *c == snap.conns@[i as int],
                    ds == c@.dirs,
                    out.wf(),
                    out@ == dirs_added(before, ds.take(j as int)),
                    forall|b: int| 0 <= b < j ==> table_fits(#[trigger] ds[b]),
                decreases c.dirs@.len() - j,
            {
                let d = &c.dirs[j];
                proof {
                    assert(ds.take(j + 1).drop_last() =~= ds.take(j as int));
                    assert(ds.take(j + 1).last() == d@);
                    assert(ds[j as int] == d@);
                }
                if !out.add_dir(d) {
                    assert(cs[i as int].dirs[j as int] == d@);
                    return Err(TableTooLarge);
                }
                j += 1;
            }
            proof {
                assert(ds.take(ds.len() as int) =~= ds);
                assert(cs.take(i + 1).drop_last() =~= cs.take(i as int));
                assert(cs.take(i + 1).last() == c@);
                assert(cs[i as int].dirs == ds);
            }
            i += 1;
        }
        assert(cs.take(cs.len() as int) =~= cs);
        Ok(out)
    }

    /// Adds the seed of one direction, if its table fits.
    fn add_dir(&mut self, d: &DirSnapshot) -> (r: bool)
        requires
            old(self).wf(),
        ensures
            final(self).wf(),
            r == table_fits(d@),
            final(self)@ == (if r {
                old(self)@.insert((d@.src, d@.dst), seed_of(d@))
            } else {
                old(self)@
            }),
    {
        let entries: Vec<Field> = d.fields();
        if !fits(&entries) {
            return false;
        }
        let ghost before = self.list@;
        let ghost was = self@;
        let seed = Seed {
            src: d.src.clone(),
            dst: d.dst.clone(),
            entries,
            max_size: d.max_table_size,
            next_frame_seq: d.next_frame_seq,
            usable: d.usable,
            reason: d.reason.clone(),
        };
        let ghost sv = seed;
        self.list.push(seed);
        proof {
            let route = (d@.src, d@.dst);
            let n = before.len() as int;
            assert(sv@ =~= seed_of(d@));
            assert forall|k: Route| #[trigger] self@.dom().contains(k) <==> was.insert(
                route,
                seed_of(d@),
            ).dom().contains(k) by {
                lemma_last_of(before, sv, k, n);
            }
            assert forall|k: Route| #[trigger] self@.dom().contains(k) implies self@[k]
                == was.insert(route, seed_of(d@))[k] by {
                lemma_last_of(before, sv, k, n);
            }
            assert(self@ =~= was.insert(route, seed_of(d@)));
        }
        true
    }

    /// The seed of the direction from `src` to `dst`.
    pub fn get(&self, src: &str, dst: &str) -> (r: Option<&Seed>)
        requires
            self.wf(),
        ensures
            match r {
                Some(s) => self@.contains_key((src@, dst@)) && self@[(src@, dst@)] == s@
                    && table_bytes(fields_view(s.entries@)) <= usize::MAX,
                None => !self@.contains_key((src@, dst@)),
            },
    {
        let ghost route = (src@, dst@);
        let mut n: usize = self.list.len();
        while n > 0
            invariant
                self.wf(),
                n <= self.list@.len(),
                route == (src@, dst@),
                last_of(self.list@, route, self.list@.len() as int) == last_of(
                    self.list@,
                    route,
                    n as int,
                ),
            decreases n,
        {
            let s = &self.list[n - 1];
            if same_text(s.src.as_str(), src) && same_text(s.dst.as_str(), dst) {
                return Some(s);
            }
            n -= 1;
        }
        None
    }
}

} // verus!
