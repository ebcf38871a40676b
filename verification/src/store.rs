//! The migration store directory: one directory per migration name, holding
//! that migration's up script and down script.

use vstd::prelude::*;
use crate::bytes::{bytes_eq, copy_bytes, distinct, find_name, lemma_find_name, Name};
use crate::error::VagabondError;

verus! {

/// One migration's directory: its name and its two scripts.
pub struct Unit {
    pub name: Name,
    pub up: Vec<u8>,
    pub down: Vec<u8>,
}

/// The value of one unit.
pub struct UnitV {
    pub name: Seq<u8>,
    pub up: Seq<u8>,
    pub down: Seq<u8>,
}

impl View for Unit {
    type V = UnitV;

    open spec fn view(&self) -> UnitV {
        UnitV { name: self.name@, up: self.up@, down: self.down@ }
    }
}

/// The views of a list of units.
pub open spec fn unit_views(units: Seq<Unit>) -> Seq<UnitV> {
    units.map_values(|u: Unit| u@)
}

/// The names of the units, in order.
pub open spec fn unit_names(units: Seq<UnitV>) -> Seq<Seq<u8>> {
    units.map_values(|u: UnitV| u.name)
}

/// The units whose names are not among `gone`, in order.
pub open spec fn prune_units(units: Seq<UnitV>, gone: Seq<Seq<u8>>) -> Seq<UnitV>
    decreases units.len(),
{
    if units.len() == 0 {
        units
    } else {
        let init = prune_units(units.drop_last(), gone);
        if gone.contains(units.last().name) {
            init
        } else {
            init.push(units.last())
        }
    }
}

/// Appending a unit appends it to the pruned list unless its name is gone.
pub proof fn lemma_prune_units_push(units: Seq<UnitV>, gone: Seq<Seq<u8>>, u: UnitV)
    ensures
        prune_units(units.push(u), gone) == if gone.contains(u.name) {
            prune_units(units, gone)
        } else {
            prune_units(units, gone).push(u)
        },
{
    assert(units.push(u).drop_last() =~~= units);
    assert(units.push(u).last() == u);
}

/// Pruning with nothing gone keeps everything.
pub proof fn lemma_prune_units_nil(units: Seq<UnitV>)
    ensures
        prune_units(units, Seq::<Seq<u8>>::empty()) == units,
    decreases units.len(),
{
    if units.len() == 0 {
    } else {
        lemma_prune_units_nil(units.drop_last());
        assert(!Seq::<Seq<u8>>::empty().contains(units.last().name)) by {
            if Seq::<Seq<u8>>::empty().contains(units.last().name) {
                let w = choose|w: int| 0 <= w < Seq::<Seq<u8>>::empty().len()
                    && Seq::<Seq<u8>>::empty()[w] == units.last().name;
            }
        }
        assert(prune_units(units, Seq::<Seq<u8>>::empty()) =~~= units);
    }
}

/// After pruning, `y` names a unit if and only if it did before and is not
/// among `gone`.
pub open spec fn prune_keeps(units: Seq<UnitV>, gone: Seq<Seq<u8>>, y: Seq<u8>) -> bool {
    unit_names(prune_units(units, gone)).contains(y)
        <==> (unit_names(units).contains(y) && !gone.contains(y))
}

/// Pruning keeps exactly the units whose names avoid `gone`: a name occurs
/// after pruning if and only if it occurred before and is not gone; and
/// distinct names stay distinct.
pub proof fn lemma_prune_units_facts(units: Seq<UnitV>, gone: Seq<Seq<u8>>)
    ensures
        forall|y: Seq<u8>| #[trigger] prune_keeps(units, gone, y),
        distinct(unit_names(units)) ==> distinct(unit_names(prune_units(units, gone))),
    decreases units.len(),
{
    let p = prune_units(units, gone);
    if units.len() == 0 {
        assert forall|y: Seq<u8>| #[trigger] prune_keeps(units, gone, y) by {
            if unit_names(p).contains(y) {
                let w = choose|w: int| 0 <= w < unit_names(p).len() && unit_names(p)[w] == y;
                assert(false);
            }
            if unit_names(units).contains(y) {
                let w = choose|w: int| 0 <= w < unit_names(units).len()
                    && unit_names(units)[w] == y;
                assert(false);
            }
        }
    } else {
        let last = units.last();
        let rest = units.drop_last();
        let init = prune_units(rest, gone);
        lemma_prune_units_facts(rest, gone);
        assert(unit_names(units).len() == units.len());
        assert(unit_names(rest).len() == rest.len());
        assert(unit_names(init).len() == init.len());
        assert forall|y: Seq<u8>| #![auto] unit_names(units).contains(y)
            <==> (unit_names(rest).contains(y) || y == last.name) by {
            if unit_names(units).contains(y) {
                let w = choose|w: int| 0 <= w < unit_names(units).len()
                    && unit_names(units)[w] == y;
                if w < units.len() - 1 {
                    assert(units[w] == rest[w]);
                    assert(unit_names(rest)[w] == y);
                    assert(unit_names(rest).contains(y));
                }
            }
            if unit_names(rest).contains(y) {
                let w = choose|w: int| 0 <= w < unit_names(rest).len()
                    && unit_names(rest)[w] == y;
                assert(units[w] == rest[w]);
                assert(unit_names(units)[w] == y);
                assert(unit_names(units).contains(y));
            }
            if y == last.name {
                assert(unit_names(units)[units.len() - 1] == y);
                assert(unit_names(units).contains(y));
            }
        }
        if distinct(unit_names(units)) {
            assert(distinct(unit_names(rest))) by {
                assert forall|a: int, b: int| 0 <= a < b < unit_names(rest).len()
                    implies unit_names(rest)[a] != unit_names(rest)[b] by {
                    assert(units[a] == rest[a]);
                    assert(units[b] == rest[b]);
                    assert(unit_names(units)[a] == units[a].name);
                    assert(unit_names(units)[b] == units[b].name);
                }
            }
        }
        if gone.contains(last.name) {
            assert(p == init);
            assert forall|y: Seq<u8>| #[trigger] prune_keeps(units, gone, y) by {
                assert(prune_keeps(rest, gone, y));
                assert(unit_names(units).contains(y)
                    <==> (unit_names(rest).contains(y) || y == last.name));
            }
        } else {
            assert(p == init.push(last));
            assert forall|y: Seq<u8>| #![auto] unit_names(p).contains(y)
                <==> (unit_names(init).contains(y) || y == last.name) by {
                assert(unit_names(p).len() == p.len());
                if unit_names(p).contains(y) {
                    let w = choose|w: int| 0 <= w < unit_names(p).len()
                        && unit_names(p)[w] == y;
                    if w < p.len() - 1 {
                        assert(p[w] == init[w]);
                        assert(unit_names(init)[w] == y);
                        assert(unit_names(init).contains(y));
                    } else {
                        assert(p[w] == last);
                    }
                }
                if unit_names(init).contains(y) {
                    let w = choose|w: int| 0 <= w < unit_names(init).len()
                        && unit_names(init)[w] == y;
                    assert(p[w] == init[w]);
                    assert(unit_names(p)[w] == y);
                    assert(unit_names(p).contains(y));
                }
                if y == last.name {
                    assert(p[p.len() - 1] == last);
                    assert(unit_names(p)[p.len() - 1] == y);
                    assert(unit_names(p).contains(y));
                }
            }
            assert forall|y: Seq<u8>| #[trigger] prune_keeps(units, gone, y) by {
                assert(prune_keeps(rest, gone, y));
                assert(unit_names(p).contains(y)
                    <==> (unit_names(init).contains(y) || y == last.name));
                assert(unit_names(units).contains(y)
                    <==> (unit_names(rest).contains(y) || y == last.name));
            }
            if distinct(unit_names(units)) {
                assert(!unit_names(rest).contains(last.name)) by {
                    if unit_names(rest).contains(last.name) {
                        let w = choose|w: int| 0 <= w < unit_names(rest).len()
                            && unit_names(rest)[w] == last.name;
                        assert(units[w] == rest[w]);
                        assert(unit_names(units)[w] == last.name);
                        assert(unit_names(units)[units.len() - 1] == last.name);
                    }
                }
                assert(distinct(unit_names(p))) by {
                    assert forall|a: int, b: int| 0 <= a < b < unit_names(p).len()
                        implies unit_names(p)[a] != unit_names(p)[b] by {
                        assert(unit_names(p).len() == p.len());
                        if b < p.len() - 1 {
                            assert(p[a] == init[a]);
                            assert(p[b] == init[b]);
                            assert(unit_names(init)[a] == init[a].name);
                            assert(unit_names(init)[b] == init[b].name);
                        } else {
                            assert(p[a] == init[a]);
                            assert(p[b] == last);
                            assert(unit_names(init)[a] == init[a].name);
                            assert(unit_names(init).contains(init[a].name));
                            assert(prune_keeps(rest, gone, init[a].name));
                        }
                    }
                }
            }
        }
    }
}

/// Pruning one more name equals pruning, then pruning that name alone.
pub proof fn lemma_prune_units_chain(units: Seq<UnitV>, gone: Seq<Seq<u8>>, x: Seq<u8>)
    ensures
        prune_units(prune_units(units, gone), seq![x]) == prune_units(units, gone.push(x)),
    decreases units.len(),
{
    assert forall|y: Seq<u8>| #![auto] gone.push(x).contains(y)
        <==> (gone.contains(y) || y == x) by {
        if gone.push(x).contains(y) {
            let w = choose|w: int| 0 <= w < gone.push(x).len() && gone.push(x)[w] == y;
            if w < gone.len() {
                assert(gone[w] == y);
            }
        }
        if gone.contains(y) {
            let w = choose|w: int| 0 <= w < gone.len() && gone[w] == y;
            assert(gone.push(x)[w] == y);
        }
        if y == x {
            assert(gone.push(x)[gone.len() as int] == y);
        }
    }
    assert forall|y: Seq<u8>| #![auto] seq![x].contains(y) <==> y == x by {
        if seq![x].contains(y) {
            let w = choose|w: int| 0 <= w < seq![x].len() && seq![x][w] == y;
        }
        if y == x {
            assert(seq![x][0] == y);
        }
    }
    if units.len() == 0 {
    } else {
        let last = units.last();
        lemma_prune_units_chain(units.drop_last(), gone, x);
        if gone.contains(last.name) {
        } else if last.name == x {
            lemma_prune_units_push(prune_units(units.drop_last(), gone), seq![x], last);
        } else {
            lemma_prune_units_push(prune_units(units.drop_last(), gone), seq![x], last);
        }
    }
}

/// The directory of migrations.
pub struct Store {
    /// Every migration's directory, in creation order.
    pub units: Vec<Unit>,
}

impl Store {
    /// The units.
    pub open spec fn units_view(self) -> Seq<UnitV> {
        unit_views(self.units@)
    }

    /// The directory names, in order.
    pub open spec fn names(self) -> Seq<Seq<u8>> {
        unit_names(self.units_view())
    }

    /// Whether a directory for `name` exists.
    pub open spec fn has(self, name: Seq<u8>) -> bool {
        self.names().contains(name)
    }

    /// Well-formed: no two directories share a name.
    pub open spec fn wf(self) -> bool {
        distinct(self.names())
    }

    /// The up script stored under `name`.
    pub open spec fn up_of(self, name: Seq<u8>) -> Seq<u8> {
        match find_name(self.names(), name) {
            Some(i) => self.units_view()[i].up,
            None => Seq::empty(),
        }
    }

    /// The down script stored under `name`.
    pub open spec fn down_of(self, name: Seq<u8>) -> Seq<u8> {
        match find_name(self.names(), name) {
            Some(i) => self.units_view()[i].down,
            None => Seq::empty(),
        }
    }

    /// An empty directory of migrations.
    pub fn new() -> (r: Store)
        ensures
            r.units_view() == Seq::<UnitV>::empty(),
            r.wf(),
    {
        let r = Store { units: Vec::new() };
        proof {
            assert(r.units_view() =~~= Seq::<UnitV>::empty());
            assert(r.names() =~~= Seq::<Seq<u8>>::empty());
        }
        r
    }

    /// The index of the directory named `name`, if one exists.
    fn find(&self, name: &Name) -> (r: Option<usize>)
        ensures
            match r {
                Some(i) => find_name(self.names(), name@) == Some(i as int),
                None => find_name(self.names(), name@) == None::<int>,
            },
    {
        let mut i: usize = 0;
        while i < self.units.len()
            invariant
                0 <= i <= self.units.len(),
                forall|j: int| #![auto] 0 <= j < i ==> self.names()[j] != name@,
            decreases self.units.len() - i,
        {
            if bytes_eq(&self.units[i].name, name) {
                proof {
                    lemma_find_name(self.names(), name@);
                    assert(self.names()[i as int] == name@);
                    match find_name(self.names(), name@) {
                        Some(k) => {
                            assert(k <= i as int);
                            assert(k >= i as int);
                        }
                        None => {
                            assert(self.names().contains(name@));
                        }
                    }
                }
                return Some(i);
            }
            i += 1;
        }
        proof {
            lemma_find_name(self.names(), name@);
            match find_name(self.names(), name@) {
                Some(k) => {
                    assert(self.names()[k] != name@);
                }
                None => {}
            }
        }
        None
    }

    /// Creates the directory for `name`, with both scripts empty; a name
    /// that already has one is rejected, and nothing changes.
    pub fn create(&mut self, name: &Name) -> (r: Result<(), VagabondError>)
        requires
            old(self).wf(),
        ensures
            final(self).wf(),
            old(self).has(name@) ==> *final(self) == *old(self)
                && (r matches Err(VagabondError::DirectoryExists(n)) && n@ == name@),
            !old(self).has(name@) ==> r is Ok
                && final(self).units_view() == old(self).units_view().push(
                    (UnitV { name: name@, up: Seq::empty(), down: Seq::empty() })),
    {
        proof {
            lemma_find_name(self.names(), name@);
        }
        if self.find(name).is_some() {
            return Err(VagabondError::DirectoryExists(copy_bytes(name)));
        }
        let unit = Unit { name: copy_bytes(name), up: Vec::new(), down: Vec::new() };
        let ghost prev = self.units@;
        self.units.push(unit);
        proof {
            assert(prev.len() == unit_views(prev).len());
            assert(self.units_view() =~~= old(self).units_view().push(
                (UnitV { name: name@, up: Seq::empty(), down: Seq::empty() })));
            assert(self.names() =~~= old(self).names().push(name@));
            assert(distinct(self.names())) by {
                let cur = self.names();
                assert forall|a: int, b: int| 0 <= a < b < cur.len()
                    implies cur[a] != cur[b] by {
                    if b < cur.len() - 1 {
                        assert(old(self).names()[a] != old(self).names()[b]);
                    } else {
                        assert(cur[a] == old(self).names()[a]);
                        assert(old(self).names().contains(old(self).names()[a]));
                    }
                }
            }
        }
        Ok(())
    }

    /// The up script of `name`; fails if `name` has no directory.
    pub fn read_up(&self, name: &Name) -> (r: Result<Vec<u8>, VagabondError>)
        ensures
            self.has(name@) ==> (r matches Ok(s) && s@ == self.up_of(name@)),
            !self.has(name@) ==> (r matches Err(VagabondError::MissingDirectory(n))
                && n@ == name@),
    {
        proof {
            lemma_find_name(self.names(), name@);
        }
        match self.find(name) {
            Some(i) => Ok(copy_bytes(&self.units[i].up)),
            None => Err(VagabondError::MissingDirectory(copy_bytes(name))),
        }
    }

    /// The down script of `name`; fails if `name` has no directory.
    pub fn read_down(&self, name: &Name) -> (r: Result<Vec<u8>, VagabondError>)
        ensures
            self.has(name@) ==> (r matches Ok(s) && s@ == self.down_of(name@)),
            !self.has(name@) ==> (r matches Err(VagabondError::MissingDirectory(n))
                && n@ == name@),
    {
        proof {
            lemma_find_name(self.names(), name@);
        }
        match self.find(name) {
            Some(i) => Ok(copy_bytes(&self.units[i].down)),
            None => Err(VagabondError::MissingDirectory(copy_bytes(name))),
        }
    }

    /// Replaces the up script of `name`; fails if `name` has no directory.
    pub fn write_up(&mut self, name: &Name, text: &Vec<u8>) -> (r: Result<(), VagabondError>)
        ensures
            old(self).has(name@) ==> r is Ok
                && (match find_name(old(self).names(), name@) {
                    Some(i) => final(self).units_view() == old(self).units_view().update(
                        i,
                        (UnitV {
                            name: name@,
                            up: text@,
                            down: old(self).units_view()[i].down,
                        }),
                    ),
                    None => false,
                }),
            !old(self).has(name@) ==> *final(self) == *old(self)
                && (r matches Err(VagabondError::MissingDirectory(n)) && n@ == name@),
            final(self).names() == old(self).names(),
            final(self).wf() == old(self).wf(),
    {
        proof {
            lemma_find_name(self.names(), name@);
        }
        match self.find(name) {
            Some(i) => {
                let up = copy_bytes(text);
                let nm = copy_bytes(name);
                let down = copy_bytes(&self.units[i].down);
                let ghost prev = self.units@;
                self.units.set(i, Unit { name: nm, up, down });
                proof {
                    let ghost k = find_name(old(self).names(), name@);
                    assert(old(self).names()[i as int] == name@);
                    assert(self.units_view() =~~= old(self).units_view().update(
                        i as int,
                        (UnitV {
                            name: name@,
                            up: text@,
                            down: old(self).units_view()[i as int].down,
                        }),
                    ));
                    assert(self.names() =~~= old(self).names());
                }
                Ok(())
            }
            None => Err(VagabondError::MissingDirectory(copy_bytes(name))),
        }
    }

    /// Replaces the down script of `name`; fails if `name` has no directory.
    pub fn write_down(&mut self, name: &Name, text: &Vec<u8>) -> (r: Result<(), VagabondError>)
        ensures
            old(self).has(name@) ==> r is Ok
                && (match find_name(old(self).names(), name@) {
                    Some(i) => final(self).units_view() == old(self).units_view().update(
                        i,
                        (UnitV {
                            name: name@,
                            up: old(self).units_view()[i].up,
                            down: text@,
                        }),
                    ),
                    None => false,
                }),
            !old(self).has(name@) ==> *final(self) == *old(self)
                && (r matches Err(VagabondError::MissingDirectory(n)) && n@ == name@),
            final(self).names() == old(self).names(),
            final(self).wf() == old(self).wf(),
    {
        proof {
            lemma_find_name(self.names(), name@);
        }
        match self.find(name) {
            Some(i) => {
                let down = copy_bytes(text);
                let nm = copy_bytes(name);
                let up = copy_bytes(&self.units[i].up);
                let ghost prev = self.units@;
                self.units.set(i, Unit { name: nm, up, down });
                proof {
                    assert(old(self).names()[i as int] == name@);
                    assert(self.units_view() =~~= old(self).units_view().update(
                        i as int,
                        (UnitV {
                            name: name@,
                            up: old(self).units_view()[i as int].up,
                            down: text@,
                        }),
                    ));
                    assert(self.names() =~~= old(self).names());
                }
                Ok(())
            }
            None => Err(VagabondError::MissingDirectory(copy_bytes(name))),
        }
    }

    /// Removes the directory of `name`; fails if there is none, and then
    /// nothing changes.
    pub fn remove(&mut self, name: &Name) -> (r: Result<(), VagabondError>)
        requires
            old(self).wf(),
        ensures
            final(self).wf(),
            old(self).has(name@) ==> r is Ok
                && final(self).units_view() == prune_units(old(self).units_view(), seq![name@]),
            !old(self).has(name@) ==> *final(self) == *old(self)
                && (r matches Err(VagabondError::MissingDirectory(n)) && n@ == name@),
    {
        proof {
            lemma_find_name(self.names(), name@);
            assert forall|y: Seq<u8>| #![auto] seq![name@].contains(y) <==> y == name@ by {
                if seq![name@].contains(y) {
                    let w = choose|w: int| 0 <= w < seq![name@].len() && seq![name@][w] == y;
                }
                if y == name@ {
                    assert(seq![name@][0] == y);
                }
            }
        }
        if self.find(name).is_none() {
            return Err(VagabondError::MissingDirectory(copy_bytes(name)));
        }
        let mut kept: Vec<Unit> = Vec::new();
        let mut i: usize = 0;
        proof {
            assert(old(self).units_view().take(0) =~~= Seq::<UnitV>::empty());
            assert(unit_views(kept@) =~~= prune_units(old(self).units_view().take(0), seq![name@]));
        }
        while i < self.units.len()
            invariant
                0 <= i <= self.units.len(),
                *self == *old(self),
                unit_views(kept@) == prune_units(
                    old(self).units_view().take(i as int),
                    seq![name@],
                ),
                forall|y: Seq<u8>| #![auto] seq![name@].contains(y) <==> y == name@,
            decreases self.units.len() - i,
        {
            let ghost pre = old(self).units_view().take(i as int);
            proof {
                assert(old(self).units_view().take(i + 1)
                    =~~= pre.push(old(self).units_view()[i as int]));
                lemma_prune_units_push(pre, seq![name@], old(self).units_view()[i as int]);
            }
            if !bytes_eq(&self.units[i].name, name) {
                let nm = copy_bytes(&self.units[i].name);
                let up = copy_bytes(&self.units[i].up);
                let down = copy_bytes(&self.units[i].down);
                let ghost prev = kept@;
                kept.push(Unit { name: nm, up, down });
                proof {
                    assert(prev.len() == unit_views(prev).len());
                    assert(unit_views(kept@) =~~= unit_views(prev).push(
                        old(self).units_view()[i as int]));
                }
            }
            i += 1;
        }
        proof {
            assert(old(self).units_view().take(old(self).units_view().len() as int)
                =~~= old(self).units_view());
        }
        self.units = kept;
        proof {
            lemma_prune_units_facts(old(self).units_view(), seq![name@]);
        }
        Ok(())
    }
}

} // verus!
