//! Byte-sequence utilities shared by the manifest and script formats:
//! splitting on a delimiter, joining with a delimiter, and searching ordered
//! lists of names.

use vstd::prelude::*;

verus! {

/// Line separator in the manifest.
pub const NL: u8 = 10;
/// Statement separator in a migration script.
pub const SEMI: u8 = 59;
/// First byte of the comment marker `//`.
pub const SLASH: u8 = 47;

/// A migration name, as the bytes of one manifest line.
pub type Name = Vec<u8>;

/// The views of a list of byte vectors.
pub open spec fn views(s: Seq<Vec<u8>>) -> Seq<Seq<u8>> {
    s.map_values(|v: Vec<u8>| v@)
}

/// The view of an optional byte vector.
pub open spec fn opt_view(o: Option<Vec<u8>>) -> Option<Seq<u8>> {
    match o {
        Some(v) => Some(v@),
        None => None,
    }
}

/// The fragments of `s` split at every occurrence of `d`. There is always at
/// least one fragment, and no fragment contains `d`.
pub open spec fn split_on(s: Seq<u8>, d: u8) -> Seq<Seq<u8>>
    decreases s.len(),
{
    if s.len() == 0 {
        seq![Seq::<u8>::empty()]
    } else if s[0] == d {
        seq![Seq::<u8>::empty()] + split_on(s.drop_first(), d)
    } else {
        let rest = split_on(s.drop_first(), d);
        seq![seq![s[0]] + rest.first()] + rest.drop_first()
    }
}

/// The fragments joined back with `d` between consecutive fragments.
pub open spec fn join_with(parts: Seq<Seq<u8>>, d: u8) -> Seq<u8>
    decreases parts.len(),
{
    if parts.len() == 0 {
        Seq::empty()
    } else if parts.len() == 1 {
        parts[0]
    } else {
        parts.first() + seq![d] + join_with(parts.drop_first(), d)
    }
}

/// No fragment contains the delimiter.
pub open spec fn delim_free(parts: Seq<Seq<u8>>, d: u8) -> bool {
    forall|i: int| #![auto] 0 <= i < parts.len() ==> !parts[i].contains(d)
}

/// No two entries are equal.
pub open spec fn distinct(names: Seq<Seq<u8>>) -> bool {
    forall|i: int, j: int| #![auto] 0 <= i < j < names.len() ==> names[i] != names[j]
}

/// The index of the first entry equal to `name`, if any.
pub open spec fn find_name(names: Seq<Seq<u8>>, name: Seq<u8>) -> Option<int>
    decreases names.len(),
{
    if names.len() == 0 {
        None
    } else if names.first() == name {
        Some(0)
    } else {
        match find_name(names.drop_first(), name) {
            Some(i) => Some(i + 1),
            None => None,
        }
    }
}

/// `find_name` returns the first index holding `name`, and `None` exactly
/// when `name` does not occur.
pub proof fn lemma_find_name(names: Seq<Seq<u8>>, name: Seq<u8>)
    ensures
        match find_name(names, name) {
            Some(i) => 0 <= i < names.len() && names[i] == name
                && (forall|j: int| 0 <= j < i ==> names[j] != name),
            None => !names.contains(name),
        },
    decreases names.len(),
{
    if names.len() == 0 {
        assert(!names.contains(name)) by {
            if names.contains(name) {
                let w = choose|w: int| 0 <= w < names.len() && names[w] == name;
            }
        }
    } else if names.first() == name {
    } else {
        lemma_find_name(names.drop_first(), name);
        match find_name(names.drop_first(), name) {
            Some(i) => {
                assert(forall|j: int| 1 <= j < i + 1 ==> names[j] == names.drop_first()[j - 1]);
            }
            None => {
                assert(!names.contains(name)) by {
                    if names.contains(name) {
                        let w = choose|w: int| 0 <= w < names.len() && names[w] == name;
                        assert(w != 0);
                        assert(names.drop_first()[w - 1] == name);
                        assert(names.drop_first().contains(name));
                    }
                }
            }
        }
    }
}

/// Splitting always yields at least one fragment, each free of the delimiter.
pub proof fn lemma_split_on_shape(s: Seq<u8>, d: u8)
    ensures
        split_on(s, d).len() >= 1,
        delim_free(split_on(s, d), d),
    decreases s.len(),
{
    if s.len() == 0 {
        assert forall|i: int| #![auto] 0 <= i < split_on(s, d).len()
            implies !split_on(s, d)[i].contains(d) by {
            assert(split_on(s, d)[i] =~= Seq::<u8>::empty());
            if split_on(s, d)[i].contains(d) {
                let w = choose|w: int| 0 <= w < split_on(s, d)[i].len()
                    && split_on(s, d)[i][w] == d;
            }
        }
    } else if s[0] == d {
        lemma_split_on_shape(s.drop_first(), d);
        let rest = split_on(s.drop_first(), d);
        assert forall|i: int| #![auto] 0 <= i < split_on(s, d).len()
            implies !split_on(s, d)[i].contains(d) by {
            if i == 0 {
                if split_on(s, d)[0].contains(d) {
                    let w = choose|w: int| 0 <= w < split_on(s, d)[0].len()
                        && split_on(s, d)[0][w] == d;
                }
            } else {
                assert(split_on(s, d)[i] == rest[i - 1]);
            }
        }
    } else {
        lemma_split_on_shape(s.drop_first(), d);
        let rest = split_on(s.drop_first(), d);
        let head = seq![s[0]] + rest.first();
        assert forall|i: int| #![auto] 0 <= i < split_on(s, d).len()
            implies !split_on(s, d)[i].contains(d) by {
            if i == 0 {
                assert(split_on(s, d)[0] == head);
                if head.contains(d) {
                    let w = choose|w: int| 0 <= w < head.len() && head[w] == d;
                    if w == 0 {
                        assert(head[0] == s[0]);
                    } else {
                        assert(head[w] == rest.first()[w - 1]);
                        assert(rest.first().contains(d));
                        assert(!rest[0].contains(d));
                    }
                }
            } else {
                assert(split_on(s, d)[i] == rest.drop_first()[i - 1]);
                assert(rest.drop_first()[i - 1] == rest[i]);
            }
        }
    }
}

/// A delimiter-free sequence splits into itself alone.
pub proof fn lemma_split_on_free(s: Seq<u8>, d: u8)
    requires
        !s.contains(d),
    ensures
        split_on(s, d) == seq![s],
    decreases s.len(),
{
    if s.len() == 0 {
        assert(split_on(s, d) =~~= seq![s]);
    } else {
        assert(s[0] != d) by {
            assert(s.contains(d) <== s[0] == d);
        }
        assert(!s.drop_first().contains(d)) by {
            if s.drop_first().contains(d) {
                let w = choose|w: int| 0 <= w < s.drop_first().len() && s.drop_first()[w] == d;
                assert(s[w + 1] == d);
            }
        }
        lemma_split_on_free(s.drop_first(), d);
        let rest = split_on(s.drop_first(), d);
        assert(rest == seq![s.drop_first()]);
        assert(seq![s[0]] + rest.first() =~= s);
        assert(split_on(s, d) =~~= seq![s]);
    }
}

/// Splitting a sequence that opens with a delimiter-free prefix `p` followed
/// by a delimiter yields `p` and then the split of the remainder.
pub proof fn lemma_split_on_prefix(p: Seq<u8>, t: Seq<u8>, d: u8)
    requires
        !p.contains(d),
    ensures
        split_on(p + seq![d] + t, d) == seq![p] + split_on(t, d),
    decreases p.len(),
{
    let s = p + seq![d] + t;
    if p.len() == 0 {
        assert(s[0] == d);
        assert(s.drop_first() =~= t);
        assert(split_on(s, d) =~~= seq![p] + split_on(t, d));
    } else {
        assert(s[0] == p[0]);
        assert(p[0] != d) by {
            assert(p.contains(d) <== p[0] == d);
        }
        assert(!p.drop_first().contains(d)) by {
            if p.drop_first().contains(d) {
                let w = choose|w: int| 0 <= w < p.drop_first().len() && p.drop_first()[w] == d;
                assert(p[w + 1] == d);
            }
        }
        lemma_split_on_prefix(p.drop_first(), t, d);
        assert(s.drop_first() =~= p.drop_first() + seq![d] + t);
        let rest = split_on(s.drop_first(), d);
        assert(rest == seq![p.drop_first()] + split_on(t, d));
        lemma_split_on_shape(t, d);
        assert(rest.first() == p.drop_first());
        assert(seq![s[0]] + rest.first() =~= p);
        assert(rest.drop_first() =~= split_on(t, d));
        assert(split_on(s, d) =~~= seq![p] + split_on(t, d));
    }
}

/// Joining delimiter-free fragments and splitting again restores them.
pub proof fn lemma_split_of_join(parts: Seq<Seq<u8>>, d: u8)
    requires
        parts.len() >= 1,
        delim_free(parts, d),
    ensures
        split_on(join_with(parts, d), d) == parts,
    decreases parts.len(),
{
    if parts.len() == 1 {
        lemma_split_on_free(parts[0], d);
        assert(split_on(join_with(parts, d), d) =~= parts);
    } else {
        assert(delim_free(parts.drop_first(), d)) by {
            assert(forall|i: int| #![auto] 0 <= i < parts.drop_first().len()
                ==> parts.drop_first()[i] == parts[i + 1]);
        }
        lemma_split_of_join(parts.drop_first(), d);
        lemma_split_on_prefix(parts.first(), join_with(parts.drop_first(), d), d);
        assert(split_on(join_with(parts, d), d) =~= parts);
    }
}

/// Appending one fragment extends the join with one delimiter and the
/// fragment, except on an empty fragment list.
pub proof fn lemma_join_push(parts: Seq<Seq<u8>>, p: Seq<u8>, d: u8)
    ensures
        parts.len() == 0 ==> join_with(parts.push(p), d) == p,
        parts.len() >= 1 ==> join_with(parts.push(p), d)
            == join_with(parts, d) + seq![d] + p,
    decreases parts.len(),
{
    if parts.len() == 0 {
        assert(join_with(parts.push(p), d) == parts.push(p)[0]);
        assert(parts.push(p)[0] == p);
    } else if parts.len() == 1 {
        let two = parts.push(p);
        assert(two.first() == parts[0]);
        assert(two.drop_first() =~= seq![p]);
        assert(join_with(two.drop_first(), d) == p);
    } else {
        lemma_join_push(parts.drop_first(), p, d);
        let all = parts.push(p);
        assert(all.first() == parts.first());
        assert(all.drop_first() =~= parts.drop_first().push(p));
        assert(join_with(all, d) == all.first() + seq![d] + join_with(all.drop_first(), d));
        assert(join_with(all, d) =~= join_with(parts, d) + seq![d] + p);
    }
}

/// Whether two byte vectors hold the same bytes.
pub fn bytes_eq(a: &Vec<u8>, b: &Vec<u8>) -> (r: bool)
    ensures
        r == (a@ == b@),
{
    if a.len() != b.len() {
        assert(a@ != b@) by {
            assert(a@.len() != b@.len());
        }
        return false;
    }
    let mut i: usize = 0;
    while i < a.len()
        invariant
            0 <= i <= a.len(),
            a@.len() == b@.len(),
            forall|j: int| 0 <= j < i ==> a@[j] == b@[j],
        decreases a.len() - i,
    {
        if a[i] != b[i] {
            return false;
        }
        i += 1;
    }
    assert(a@ =~= b@);
    true
}

/// A fresh vector holding the same bytes.
pub fn copy_bytes(v: &Vec<u8>) -> (r: Vec<u8>)
    ensures
        r@ == v@,
{
    let mut r: Vec<u8> = Vec::new();
    let mut i: usize = 0;
    while i < v.len()
        invariant
            0 <= i <= v.len(),
            r@ == v@.take(i as int),
        decreases v.len() - i,
    {
        r.push(v[i]);
        assert(r@ =~= v@.take(i + 1));
        i += 1;
    }
    assert(v@.take(v@.len() as int) =~= v@);
    r
}

/// Appends all bytes of `src` to `dst`.
pub fn push_all(dst: &mut Vec<u8>, src: &Vec<u8>)
    ensures
        final(dst)@ == old(dst)@ + src@,
{
    let mut i: usize = 0;
    while i < src.len()
        invariant
            0 <= i <= src.len(),
            dst@ == old(dst)@ + src@.take(i as int),
        decreases src.len() - i,
    {
        assert(dst@ =~= old(dst)@ + src@.take(i as int));
        dst.push(src[i]);
        assert(dst@ =~= old(dst)@ + src@.take(i + 1));
        i += 1;
    }
    assert(old(dst)@ + src@.take(src@.len() as int) =~= old(dst)@ + src@);
}

/// Splits `s` into its fragments at every occurrence of `d`.
pub fn split_bytes(s: &Vec<u8>, d: u8) -> (r: Vec<Vec<u8>>)
    ensures
        views(r@) == split_on(s@, d),
{
    let mut done: Vec<Vec<u8>> = Vec::new();
    let mut cur: Vec<u8> = Vec::new();
    let ghost mut frag_start: int = 0;
    let mut i: usize = 0;
    proof {
        assert(views(done@) =~= Seq::<Seq<u8>>::empty());
        assert(s@.skip(0) =~= s@);
        assert(split_on(s@, d) =~~= views(done@) + split_on(s@.skip(frag_start), d));
    }
    while i < s.len()
        invariant
            0 <= frag_start <= i as int <= s@.len(),
            cur@ == s@.subrange(frag_start, i as int),
            !cur@.contains(d),
            split_on(s@, d) == views(done@) + split_on(s@.skip(frag_start), d),
        decreases s.len() - i,
    {
        if s[i] == d {
            proof {
                assert(s@.skip(frag_start) =~= cur@ + seq![d] + s@.skip(i + 1));
                lemma_split_on_prefix(cur@, s@.skip(i + 1), d);
                assert(views(done@.push(cur)) =~= views(done@).push(cur@));
                assert(views(done@).push(cur@) + split_on(s@.skip(i + 1), d)
                    =~= views(done@) + (seq![cur@] + split_on(s@.skip(i + 1), d)));
            }
            done.push(cur);
            cur = Vec::new();
            proof {
                frag_start = i as int + 1;
                assert(cur@ =~= s@.subrange(frag_start, i + 1));
            }
        } else {
            cur.push(s[i]);
            proof {
                assert(cur@ =~= s@.subrange(frag_start, i + 1));
                assert(!cur@.contains(d)) by {
                    if cur@.contains(d) {
                        let w = choose|w: int| 0 <= w < cur@.len() && cur@[w] == d;
                        assert(w < cur@.len() - 1 ==> cur@.drop_last()[w] == d);
                        assert(w < cur@.len() - 1 ==> cur@.drop_last().contains(d));
                        assert(cur@.drop_last() =~= s@.subrange(frag_start, i as int));
                    }
                }
            }
        }
        i += 1;
    }
    proof {
        assert(s@.skip(frag_start) =~= cur@);
        lemma_split_on_free(cur@, d);
        assert(views(done@.push(cur)) =~= views(done@).push(cur@));
        assert(views(done@).push(cur@) =~= views(done@) + seq![cur@]);
    }
    done.push(cur);
    done
}

/// Joins the fragments with `d` between consecutive fragments.
pub fn join_bytes(parts: &Vec<Vec<u8>>, d: u8) -> (r: Vec<u8>)
    ensures
        r@ == join_with(views(parts@), d),
{
    let mut r: Vec<u8> = Vec::new();
    let mut i: usize = 0;
    while i < parts.len()
        invariant
            0 <= i <= parts.len(),
            r@ == join_with(views(parts@).take(i as int), d),
        decreases parts.len() - i,
    {
        if i > 0 {
            r.push(d);
        }
        push_all(&mut r, &parts[i]);
        proof {
            let pre = views(parts@).take(i as int);
            lemma_join_push(pre, parts@[i as int]@, d);
            assert(views(parts@).take(i + 1) =~= pre.push(parts@[i as int]@));
        }
        i += 1;
    }
    proof {
        assert(views(parts@).take(parts@.len() as int) =~= views(parts@));
    }
    r
}

/// Whether `name` occurs among `names`.
pub fn contains_name(names: &Vec<Name>, name: &Name) -> (r: bool)
    ensures
        r == views(names@).contains(name@),
{
    let mut i: usize = 0;
    while i < names.len()
        invariant
            0 <= i <= names.len(),
            forall|j: int| #![auto] 0 <= j < i ==> views(names@)[j] != name@,
        decreases names.len() - i,
    {
        if bytes_eq(&names[i], name) {
            assert(views(names@)[i as int] == name@);
            return true;
        }
        i += 1;
    }
    assert(!views(names@).contains(name@)) by {
        if views(names@).contains(name@) {
            let w = choose|w: int| 0 <= w < views(names@).len() && views(names@)[w] == name@;
        }
    }
    false
}

/// The index of the first entry equal to `name`, if any.
pub fn index_of_name(names: &Vec<Name>, name: &Name) -> (r: Option<usize>)
    ensures
        match r {
            Some(i) => find_name(views(names@), name@) == Some(i as int),
            None => find_name(views(names@), name@) == None::<int>,
        },
{
    proof {
        lemma_find_name(views(names@), name@);
    }
    let mut i: usize = 0;
    while i < names.len()
        invariant
            0 <= i <= names.len(),
            forall|j: int| #![auto] 0 <= j < i ==> views(names@)[j] != name@,
        decreases names.len() - i,
    {
        if bytes_eq(&names[i], name) {
            proof {
                lemma_find_name(views(names@), name@);
                assert(views(names@)[i as int] == name@);
                match find_name(views(names@), name@) {
                    Some(k) => {
                        assert(k <= i as int);
                        assert(k >= i as int);
                    }
                    None => {
                        assert(views(names@).contains(name@));
                    }
                }
            }
            return Some(i);
        }
        i += 1;
    }
    proof {
        lemma_find_name(views(names@), name@);
        match find_name(views(names@), name@) {
            Some(k) => {
                assert(views(names@)[k] != name@);
            }
            None => {}
        }
    }
    None
}

} // verus!
