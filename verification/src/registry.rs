//! The migration registry: the ordered, persisted list of migration names.
//!
//! The manifest is UTF-8 text, one line per entry; lines starting with `//`
//! are comments, every other line is a migration name, in file order. Names
//! must be unique; a duplicate is fatal at load time and at append time.

use vstd::prelude::*;
use crate::bytes::{
    copy_bytes, contains_name, delim_free, distinct, join_bytes, join_with, split_bytes,
    split_on, views, Name, NL, SLASH,
};
use crate::error::VagabondError;

verus! {

/// Whether a manifest line is a comment.
pub open spec fn is_comment(line: Seq<u8>) -> bool {
    line.len() >= 2 && line[0] == SLASH && line[1] == SLASH
}

/// The migration names among the manifest lines: every non-comment line, in
/// file order.
pub open spec fn names_of_lines(lines: Seq<Seq<u8>>) -> Seq<Seq<u8>>
    decreases lines.len(),
{
    if lines.len() == 0 {
        Seq::empty()
    } else if is_comment(lines.last()) {
        names_of_lines(lines.drop_last())
    } else {
        names_of_lines(lines.drop_last()).push(lines.last())
    }
}

/// The migration names of a manifest text.
pub open spec fn manifest_names(text: Seq<u8>) -> Seq<Seq<u8>> {
    names_of_lines(split_on(text, NL))
}

/// Appending a line appends its name, or nothing for a comment.
pub proof fn lemma_names_push(lines: Seq<Seq<u8>>, x: Seq<u8>)
    ensures
        names_of_lines(lines.push(x)) == if is_comment(x) {
            names_of_lines(lines)
        } else {
            names_of_lines(lines).push(x)
        },
{
    assert(lines.push(x).drop_last() =~~= lines);
    assert(lines.push(x).last() == x);
}

/// A prefix holds pointwise: `a` opens `b`.
pub open spec fn seq_prefix_of(a: Seq<Seq<u8>>, b: Seq<Seq<u8>>) -> bool {
    a.len() <= b.len() && forall|j: int| #![auto] 0 <= j < a.len() ==> a[j] == b[j]
}

/// The names of the first `i` lines open the names of all lines.
pub proof fn lemma_names_prefix(lines: Seq<Seq<u8>>, i: int)
    requires
        0 <= i <= lines.len(),
    ensures
        seq_prefix_of(names_of_lines(lines.take(i)), names_of_lines(lines)),
    decreases lines.len() - i,
{
    if i == lines.len() {
        assert(lines.take(i) =~~= lines);
    } else {
        lemma_names_prefix(lines, i + 1);
        assert(lines.take(i + 1) =~~= lines.take(i).push(lines[i]));
        lemma_names_push(lines.take(i), lines[i]);
    }
}

/// The manifest lines after stripping every name past the first `keep`;
/// comment lines are preserved.
pub open spec fn prune_lines(lines: Seq<Seq<u8>>, keep: int) -> Seq<Seq<u8>>
    decreases lines.len(),
{
    if lines.len() == 0 {
        lines
    } else {
        let init = prune_lines(lines.drop_last(), keep);
        if is_comment(lines.last()) || names_of_lines(lines.drop_last()).len() < keep {
            init.push(lines.last())
        } else {
            init
        }
    }
}

/// Pruning keeps exactly the first `keep` names, and keeps every line free
/// of the separator if all lines were.
pub proof fn lemma_prune_lines(lines: Seq<Seq<u8>>, keep: int)
    requires
        0 <= keep,
    ensures
        names_of_lines(prune_lines(lines, keep)) == if keep <= names_of_lines(lines).len() {
            names_of_lines(lines).take(keep)
        } else {
            names_of_lines(lines)
        },
        delim_free(lines, NL) ==> delim_free(prune_lines(lines, keep), NL),
    decreases lines.len(),
{
    if lines.len() == 0 {
        assert(names_of_lines(lines).take(0) =~~= names_of_lines(lines));
    } else {
        let init = prune_lines(lines.drop_last(), keep);
        let last = lines.last();
        let init_names = names_of_lines(lines.drop_last());
        lemma_prune_lines(lines.drop_last(), keep);
        assert(delim_free(lines, NL) ==> delim_free(lines.drop_last(), NL)) by {
            if delim_free(lines, NL) {
                assert(forall|j: int| #![auto] 0 <= j < lines.drop_last().len()
                    ==> lines.drop_last()[j] == lines[j]);
            }
        }
        if is_comment(last) {
            lemma_names_push(init, last);
            assert(names_of_lines(lines) == init_names);
            assert(prune_lines(lines, keep) == init.push(last));
            assert(names_of_lines(init.push(last)) == names_of_lines(init));
            assert(delim_free(lines, NL) ==> delim_free(init.push(last), NL)) by {
                if delim_free(lines, NL) {
                    assert(forall|j: int| #![auto] 0 <= j < init.push(last).len()
                        ==> (j < init.len() ==> init.push(last)[j] == init[j]));
                    assert(init.push(last).last() == last);
                    assert(lines.contains(last)) by {
                        assert(lines[lines.len() - 1] == last);
                    }
                }
            }
        } else {
            assert(names_of_lines(lines) == init_names.push(last));
            if init_names.len() < keep {
                lemma_names_push(init, last);
                assert(prune_lines(lines, keep) == init.push(last));
                if keep <= init_names.len() + 1 {
                    assert(names_of_lines(init) == init_names);
                    assert(init_names.push(last).take(keep) =~~= init_names.push(last));
                } else {
                    assert(names_of_lines(init) == init_names);
                }
                assert(delim_free(lines, NL) ==> delim_free(init.push(last), NL)) by {
                    if delim_free(lines, NL) {
                        assert(forall|j: int| #![auto] 0 <= j < init.push(last).len()
                            ==> (j < init.len() ==> init.push(last)[j] == init[j]));
                        assert(lines.contains(last)) by {
                            assert(lines[lines.len() - 1] == last);
                        }
                    }
                }
            } else {
                assert(prune_lines(lines, keep) == init);
                assert(names_of_lines(init) == init_names.take(keep));
                assert(init_names.push(last).take(keep) =~~= init_names.take(keep));
            }
        }
    }
}

/// Whether a line is a comment.
pub fn line_is_comment(line: &Vec<u8>) -> (r: bool)
    ensures
        r == is_comment(line@),
{
    line.len() >= 2 && line[0] == SLASH && line[1] == SLASH
}

/// The ordered registry of migrations, as loaded from the manifest: every
/// line of the text, and beside it the non-comment lines, the names.
#[derive(Debug)]
pub struct Registry {
    /// Every manifest line, in file order.
    pub lines: Vec<Vec<u8>>,
    /// The migration names: the non-comment lines, in file order.
    pub names: Vec<Name>,
}

impl Registry {
    /// The manifest lines.
    pub open spec fn lines_view(self) -> Seq<Seq<u8>> {
        views(self.lines@)
    }

    /// The ordered migration names.
    pub open spec fn names_view(self) -> Seq<Seq<u8>> {
        views(self.names@)
    }

    /// Well-formed: no line holds a separator, the names are exactly the
    /// non-comment lines, and no name repeats.
    pub open spec fn wf(self) -> bool {
        &&& delim_free(self.lines_view(), NL)
        &&& self.names_view() == names_of_lines(self.lines_view())
        &&& distinct(self.names_view())
    }

    /// Reads a manifest text. Every line is kept; the non-comment lines are
    /// the names, in order, and a repeated name is fatal: nothing is
    /// produced.
    pub fn parse(text: &Vec<u8>) -> (r: Result<Registry, VagabondError>)
        ensures
            r is Ok <==> distinct(manifest_names(text@)),
            r matches Ok(reg) ==> reg.wf()
                && reg.lines_view() == split_on(text@, NL)
                && reg.names_view() == manifest_names(text@),
            r matches Err(e) ==> e matches VagabondError::DuplicateName(n)
                && (exists|i: int, j: int| #![auto] 0 <= i < j < manifest_names(text@).len()
                    && manifest_names(text@)[i] == n@ && manifest_names(text@)[j] == n@),
    {
        let frags = split_bytes(text, NL);
        let mut names: Vec<Name> = Vec::new();
        let mut i: usize = 0;
        proof {
            assert(views(frags@).take(0) =~~= Seq::<Seq<u8>>::empty());
            assert(views(names@) =~~= Seq::<Seq<u8>>::empty());
        }
        while i < frags.len()
            invariant
                0 <= i <= frags.len(),
                views(frags@) == split_on(text@, NL),
                views(names@) == names_of_lines(views(frags@).take(i as int)),
                distinct(views(names@)),
            decreases frags.len() - i,
        {
            let ghost pre = views(frags@).take(i as int);
            let is_c = line_is_comment(&frags[i]);
            if !is_c {
                if contains_name(&names, &frags[i]) {
                    proof {
                        let w = choose|w: int| 0 <= w < views(names@).len()
                            && views(names@)[w] == frags@[i as int]@;
                        lemma_names_push(pre, frags@[i as int]@);
                        assert(views(frags@).take(i + 1) =~~= pre.push(frags@[i as int]@));
                        let upto = names_of_lines(views(frags@).take(i + 1));
                        assert(upto == views(names@).push(frags@[i as int]@));
                        lemma_names_prefix(views(frags@), i + 1);
                        let full = manifest_names(text@);
                        assert(full[w] == frags@[i as int]@);
                        assert(full[views(names@).len() as int] == frags@[i as int]@);
                        assert(!distinct(full));
                        assert(full.contains(frags@[i as int]@)) by {
                            assert(full[w] == frags@[i as int]@);
                        }
                    }
                    return Err(VagabondError::DuplicateName(copy_bytes(&frags[i])));
                }
                let nm = copy_bytes(&frags[i]);
                names.push(nm);
                proof {
                    lemma_names_push(pre, frags@[i as int]@);
                    assert(views(frags@).take(i + 1) =~~= pre.push(frags@[i as int]@));
                    assert(views(names@) =~~= names_of_lines(pre).push(frags@[i as int]@));
                    assert(distinct(views(names@))) by {
                        let cur = views(names@);
                        assert forall|a: int, b: int| 0 <= a < b < cur.len()
                            implies cur[a] != cur[b] by {
                            if b < cur.len() - 1 {
                                assert(names_of_lines(pre)[a] != names_of_lines(pre)[b]);
                            } else {
                                assert(names_of_lines(pre)[a] == cur[a]);
                            }
                        }
                    }
                }
            } else {
                proof {
                    lemma_names_push(pre, frags@[i as int]@);
                    assert(views(frags@).take(i + 1) =~~= pre.push(frags@[i as int]@));
                }
            }
            i += 1;
        }
        proof {
            assert(views(frags@).take(frags@.len() as int) =~~= views(frags@));
            crate::bytes::lemma_split_on_shape(text@, NL);
        }
        Ok(Registry { lines: frags, names })
    }

    /// The manifest text: the lines joined with the separator.
    pub fn render(&self) -> (r: Vec<u8>)
        ensures
            r@ == join_with(self.lines_view(), NL),
    {
        join_bytes(&self.lines, NL)
    }

    /// Appends `name` as the new last manifest line. A name already present
    /// is rejected, and nothing changes. A name holding a line separator, or
    /// opening with the comment marker, the manifest format cannot
    /// represent: callers keep those out.
    pub fn append(&mut self, name: &Name) -> (r: Result<(), VagabondError>)
        requires
            old(self).wf(),
            !name@.contains(NL),
            !is_comment(name@),
        ensures
            final(self).wf(),
            old(self).names_view().contains(name@) ==> *final(self) == *old(self)
                && (r matches Err(VagabondError::DuplicateName(n)) && n@ == name@),
            !old(self).names_view().contains(name@) ==> r is Ok
                && final(self).lines_view() == old(self).lines_view().push(name@)
                && final(self).names_view() == old(self).names_view().push(name@),
    {
        if contains_name(&self.names, name) {
            return Err(VagabondError::DuplicateName(copy_bytes(name)));
        }
        let line = copy_bytes(name);
        self.lines.push(line);
        let entry = copy_bytes(name);
        self.names.push(entry);
        proof {
            assert(self.lines_view() =~~= old(self).lines_view().push(name@));
            assert(self.names_view() =~~= old(self).names_view().push(name@));
            lemma_names_push(old(self).lines_view(), name@);
            assert(delim_free(self.lines_view(), NL)) by {
                assert(forall|j: int| #![auto] 0 <= j < old(self).lines_view().len()
                    ==> self.lines_view()[j] == old(self).lines_view()[j]);
                assert(self.lines_view().last() == name@);
            }
            assert(distinct(self.names_view())) by {
                let cur = self.names_view();
                assert forall|a: int, b: int| 0 <= a < b < cur.len()
                    implies cur[a] != cur[b] by {
                    if b < cur.len() - 1 {
                        assert(old(self).names_view()[a] != old(self).names_view()[b]);
                    } else {
                        assert(cur[a] == old(self).names_view()[a]);
                    }
                }
            }
        }
        Ok(())
    }

    /// Strips every name past the first `keep` from the manifest, preserving
    /// the order of the remainder and every comment line.
    pub fn remove_trailing(&mut self, keep: usize)
        requires
            old(self).wf(),
            keep <= old(self).names@.len(),
        ensures
            final(self).wf(),
            final(self).lines_view() == prune_lines(old(self).lines_view(), keep as int),
            final(self).names_view() == old(self).names_view().take(keep as int),
    {
        let ghost lines0 = self.lines_view();
        let mut new_lines: Vec<Vec<u8>> = Vec::new();
        let mut seen: usize = 0;
        let mut i: usize = 0;
        proof {
            assert(lines0.take(0) =~~= Seq::<Seq<u8>>::empty());
            assert(views(new_lines@) =~~= prune_lines(lines0.take(0), keep as int));
        }
        while i < self.lines.len()
            invariant
                0 <= i <= self.lines.len(),
                self == old(self),
                lines0 == old(self).lines_view(),
                views(new_lines@) == prune_lines(lines0.take(i as int), keep as int),
                seen == names_of_lines(lines0.take(i as int)).len(),
                seen <= i,
            decreases self.lines.len() - i,
        {
            let ghost pre = lines0.take(i as int);
            let is_c = line_is_comment(&self.lines[i]);
            proof {
                assert(lines0.take(i + 1) =~~= pre.push(lines0[i as int]));
                assert(lines0.take(i + 1).drop_last() =~~= pre);
                assert(lines0.take(i + 1).last() == lines0[i as int]);
                lemma_names_push(pre, lines0[i as int]);
            }
            if is_c {
                let line = copy_bytes(&self.lines[i]);
                new_lines.push(line);
                proof {
                    assert(views(new_lines@)
                        =~~= prune_lines(pre, keep as int).push(lines0[i as int]));
                }
            } else {
                if seen < keep {
                    let line = copy_bytes(&self.lines[i]);
                    new_lines.push(line);
                    proof {
                        assert(views(new_lines@)
                            =~~= prune_lines(pre, keep as int).push(lines0[i as int]));
                    }
                }
                seen += 1;
            }
            i += 1;
        }
        proof {
            assert(lines0.take(lines0.len() as int) =~~= lines0);
        }
        self.lines = new_lines;
        let mut new_names: Vec<Name> = Vec::new();
        let mut j: usize = 0;
        proof {
            assert(views(new_names@) =~~= old(self).names_view().take(0));
        }
        while j < keep
            invariant
                0 <= j <= keep,
                keep <= self.names@.len(),
                self.names@ == old(self).names@,
                views(new_names@) == old(self).names_view().take(j as int),
            decreases keep - j,
        {
            let nm = copy_bytes(&self.names[j]);
            let ghost prev = new_names@;
            new_names.push(nm);
            proof {
                assert(nm@ == old(self).names_view()[j as int]);
                assert(new_names@ == prev.push(nm));
                assert(prev.len() == views(prev).len());
                assert(prev.len() == j);
                assert(new_names@.len() == j + 1);
                assert forall|k: int| 0 <= k < j + 1
                    implies views(new_names@)[k] == old(self).names_view().take(j + 1)[k] by {
                    if k < j {
                        assert(views(new_names@)[k] == views(prev)[k]);
                        assert(views(prev)[k] == old(self).names_view().take(j as int)[k]);
                    } else {
                        assert(new_names@[k] == nm);
                    }
                }
                assert(views(new_names@) =~~= old(self).names_view().take(j + 1));
            }
            j += 1;
        }
        self.names = new_names;
        proof {
            lemma_prune_lines(old(self).lines_view(), keep as int);
            assert(distinct(self.names_view())) by {
                let cur = self.names_view();
                assert forall|a: int, b: int| 0 <= a < b < cur.len()
                    implies cur[a] != cur[b] by {
                    assert(old(self).names_view()[a] != old(self).names_view()[b]);
                }
            }
        }
    }
}

/// Reloading a well-formed registry's rendered manifest yields the same
/// lines and the same names, in the same order.
pub proof fn lemma_registry_reload(reg: Registry)
    requires
        reg.wf(),
        reg.lines@.len() >= 1,
    ensures
        split_on(join_with(reg.lines_view(), NL), NL) == reg.lines_view(),
        manifest_names(join_with(reg.lines_view(), NL)) == reg.names_view(),
        distinct(manifest_names(join_with(reg.lines_view(), NL))),
{
    crate::bytes::lemma_split_of_join(reg.lines_view(), NL);
}

/// Any sequence of appended lines of fresh, distinct names reloads to the
/// old names followed by the new ones, in append order and without
/// repetition. Each append adds one line, so after a run of appends the
/// lines are the old ones plus the fresh names, which is what this speaks
/// of.
pub proof fn lemma_new_sequence_reload(lines: Seq<Seq<u8>>, fresh: Seq<Seq<u8>>)
    requires
        lines.len() >= 1,
        delim_free(lines, NL),
        distinct(names_of_lines(lines)),
        distinct(fresh),
        forall|i: int| #![auto] 0 <= i < fresh.len() ==> !fresh[i].contains(NL)
            && !is_comment(fresh[i]) && !names_of_lines(lines).contains(fresh[i]),
    ensures
        names_of_lines(lines + fresh) == names_of_lines(lines) + fresh,
        distinct(names_of_lines(lines) + fresh),
        manifest_names(join_with(lines + fresh, NL)) == names_of_lines(lines) + fresh,
    decreases fresh.len(),
{
    let base = names_of_lines(lines);
    if fresh.len() == 0 {
        assert(lines + fresh =~~= lines);
        assert(base + fresh =~~= base);
        crate::bytes::lemma_split_of_join(lines, NL);
    } else {
        let early = fresh.drop_last();
        let x = fresh.last();
        assert(distinct(early)) by {
            assert(forall|i: int| #![auto] 0 <= i < early.len() ==> early[i] == fresh[i]);
        }
        assert(forall|i: int| #![auto] 0 <= i < early.len() ==> !early[i].contains(NL)
            && !is_comment(early[i]) && !base.contains(early[i])) by {
            assert(forall|i: int| #![auto] 0 <= i < early.len() ==> early[i] == fresh[i]);
        }
        lemma_new_sequence_reload(lines, early);
        assert(lines + fresh =~~= (lines + early).push(x));
        assert(x == fresh[fresh.len() - 1]);
        lemma_names_push(lines + early, x);
        assert(names_of_lines(lines + fresh) =~~= base + fresh);
        assert(distinct(base + fresh)) by {
            let cur = base + fresh;
            assert forall|a: int, b: int| 0 <= a < b < cur.len()
                implies cur[a] != cur[b] by {
                if b < base.len() {
                    assert(base[a] != base[b]);
                } else if a < base.len() {
                    assert(cur[a] == base[a]);
                    assert(cur[b] == fresh[b - base.len()]);
                    assert(base.contains(base[a])) by {
                        assert(base[a] == base[a]);
                    }
                } else {
                    assert(cur[a] == fresh[a - base.len()]);
                    assert(cur[b] == fresh[b - base.len()]);
                }
            }
        }
        assert(delim_free(lines + fresh, NL)) by {
            assert forall|i: int| #![auto] 0 <= i < (lines + fresh).len()
                implies !(lines + fresh)[i].contains(NL) by {
                if i < lines.len() {
                    assert((lines + fresh)[i] == lines[i]);
                } else {
                    assert((lines + fresh)[i] == fresh[i - lines.len()]);
                }
            }
        }
        crate::bytes::lemma_split_of_join(lines + fresh, NL);
    }
}

/// One fresh name appended and the manifest reloaded: the names are the old
/// ones followed by the new one, still without repetition. A repeated name
/// is rejected before the manifest changes, so the reloaded registry of any
/// sequence of appends of distinct names lists them in append order.
pub proof fn lemma_new_then_reload(reg: Registry, name: Seq<u8>)
    requires
        reg.wf(),
        reg.lines@.len() >= 1,
        !name.contains(NL),
        !is_comment(name),
        !reg.names_view().contains(name),
    ensures
        manifest_names(join_with(reg.lines_view().push(name), NL))
            == reg.names_view().push(name),
        distinct(reg.names_view().push(name)),
{
    let lines2 = reg.lines_view().push(name);
    assert(delim_free(lines2, NL)) by {
        assert(forall|j: int| #![auto] 0 <= j < reg.lines_view().len()
            ==> lines2[j] == reg.lines_view()[j]);
        assert(lines2.last() == name);
    }
    crate::bytes::lemma_split_of_join(lines2, NL);
    lemma_names_push(reg.lines_view(), name);
    assert(distinct(reg.names_view().push(name))) by {
        let cur = reg.names_view().push(name);
        assert forall|a: int, b: int| 0 <= a < b < cur.len()
            implies cur[a] != cur[b] by {
            if b < cur.len() - 1 {
                assert(reg.names_view()[a] != reg.names_view()[b]);
            } else {
                assert(cur[a] == reg.names_view()[a]);
            }
        }
    }
}

} // verus!
