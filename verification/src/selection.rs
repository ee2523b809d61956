use vstd::prelude::*;

use crate::mesh::FaceId;

verus! {

/// The document's current selection, at face granularity; selecting a
/// group expands to all of that group's faces here. Each face is listed
/// once.
#[derive(Debug)]
pub struct Selection {
    pub faces: Vec<FaceId>,
}

impl View for Selection {
    type V = Seq<FaceId>;

    open spec fn view(&self) -> Seq<FaceId> {
        self.faces@
    }
}

impl Clone for Selection {
    fn clone(&self) -> (r: Selection)
        ensures
            r@ == self@,
    {
        Selection { faces: vstd::slice::slice_to_vec(self.faces.as_slice()) }
    }
}

impl Selection {
    pub open spec fn wf(&self) -> bool {
        self.faces@.no_duplicates()
    }

    pub open spec fn set(&self) -> Set<FaceId> {
        self.faces@.to_set()
    }

    pub fn new() -> (s: Selection)
        ensures
            s.wf(),
            s.faces@.len() == 0,
    {
        Selection { faces: Vec::new() }
    }

    pub fn clear(&mut self)
        ensures
            final(self).faces@.len() == 0,
            final(self).wf(),
    {
        self.faces.clear();
    }

    pub fn contains(&self, f: FaceId) -> (r: bool)
        ensures
            r == self.faces@.contains(f),
    {
        list_contains(&self.faces, f)
    }

    /// Drops `f` from the selection.
    pub fn remove(&mut self, f: FaceId)
        requires
            old(self).wf(),
        ensures
            final(self).wf(),
            final(self).set() == old(self).set().remove(f),
    {
        list_remove(&mut self.faces, f);
    }

    /// Replaces the selection with the faces of `ids`, each once.
    pub fn set_to(&mut self, ids: &[FaceId])
        ensures
            final(self).wf(),
            final(self).set() == ids@.to_set(),
    {
        self.faces = list_from(ids);
    }
}

pub fn list_contains(list: &Vec<FaceId>, f: FaceId) -> (r: bool)
    ensures
        r == list@.contains(f),
{
    let mut i: usize = 0;
    while i < list.len()
        invariant
            i <= list@.len(),
            forall|k: int| 0 <= k < i ==> list@[k] != f,
        decreases list@.len() - i,
    {
        if list[i] == f {
            return true;
        }
        i = i + 1;
    }
    false
}

pub fn ids_contain(list: &[FaceId], f: FaceId) -> (r: bool)
    ensures
        r == list@.contains(f),
{
    let mut i: usize = 0;
    while i < list.len()
        invariant
            i <= list@.len(),
            forall|k: int| 0 <= k < i ==> list@[k] != f,
        decreases list@.len() - i,
    {
        if list[i] == f {
            return true;
        }
        i = i + 1;
    }
    false
}

/// Drops `f` from the duplicate-free list `list`, keeping the order of the rest.
pub fn list_remove(list: &mut Vec<FaceId>, f: FaceId)
    requires
        old(list)@.no_duplicates(),
    ensures
        final(list)@.no_duplicates(),
        final(list)@.to_set() == old(list)@.to_set().remove(f),
{
    let ghost before = list@;
    let mut kept: Vec<FaceId> = Vec::new();
    let mut i: usize = 0;
    while i < list.len()
        invariant
            before == list@,
            before.no_duplicates(),
            i <= before.len(),
            kept@.no_duplicates(),
            forall|g: FaceId| kept@.contains(g) <==> (g != f && exists|k: int| 0 <= k < i && before[k] == g),
        decreases before.len() - i,
    {
        let g = list[i];
        if g != f {
            let ghost kb = kept@;
            kept.push(g);
            proof {
                assert forall|x: int, y: int| 0 <= x < y < kept@.len() implies kept@[x] != kept@[y] by {
                    if y == kb.len() {
                        if kept@[x] == g {
                            assert(kb.contains(g));
                            let k = choose|k: int| 0 <= k < i && before[k] == g;
                            assert(before[k] == before[i as int]);
                        }
                    }
                }
                assert forall|h: FaceId| kept@.contains(h) <==> (h != f && exists|k: int| 0 <= k < i + 1 && before[k] == h) by {
                    if kept@.contains(h) {
                        let q = choose|q: int| 0 <= q < kept@.len() && kept@[q] == h;
                        if q < kb.len() {
                            assert(kb.contains(h));
                        } else {
                            assert(before[i as int] == h);
                        }
                    }
                    if h != f && exists|k: int| 0 <= k < i + 1 && before[k] == h {
                        let k = choose|k: int| 0 <= k < i + 1 && before[k] == h;
                        if k < i {
                            assert(kb.contains(h));
                            let q = choose|q: int| 0 <= q < kb.len() && kb[q] == h;
                            assert(kept@[q] == h);
                        } else {
                            assert(kept@[kb.len() as int] == h);
                        }
                    }
                }
            }
        }
        i = i + 1;
    }
    *list = kept;
    proof {
        assert(list@.to_set() =~= before.to_set().remove(f)) by {
            assert forall|h: FaceId| list@.to_set().contains(h) <==> before.to_set().remove(f).contains(h) by {
                if before.contains(h) {
                    let k = choose|k: int| 0 <= k < before.len() && before[k] == h;
                }
            }
        }
    }
}

/// Appends to the duplicate-free `list` each face of `ids` it lacks.
pub fn list_add_all(list: &mut Vec<FaceId>, ids: &[FaceId])
    requires
        old(list)@.no_duplicates(),
    ensures
        final(list)@.no_duplicates(),
        final(list)@.to_set() == old(list)@.to_set().union(ids@.to_set()),
{
    let mut out: Vec<FaceId> = Vec::new();
    std::mem::swap(list, &mut out);
    let ghost start = out@;
    let mut i: usize = 0;
    while i < ids.len()
        invariant
            i <= ids@.len(),
            start.no_duplicates(),
            out@.no_duplicates(),
            forall|g: FaceId| #[trigger] out@.contains(g) <==> (start.contains(g) || exists|k: int| 0 <= k < i && ids@[k] == g),
        decreases ids@.len() - i,
    {
        let g = ids[i];
        let ghost ob = out@;
        let present = list_contains(&out, g);
        if !present {
            out.push(g);
            proof {
                assert forall|x: int, y: int| 0 <= x < y < out@.len() implies out@[x] != out@[y] by {
                    if y == ob.len() {
                        assert(ob.contains(out@[x]));
                    }
                }
            }
        }
        proof {
            assert forall|h: FaceId| #[trigger] out@.contains(h) <==> (start.contains(h) || exists|k: int| 0 <= k < i + 1 && ids@[k] == h) by {
                if out@.contains(h) {
                    let q = choose|q: int| 0 <= q < out@.len() && out@[q] == h;
                    if q < ob.len() {
                        assert(ob.contains(h));
                    } else {
                        assert(ids@[i as int] == h);
                    }
                }
                if exists|k: int| 0 <= k < i + 1 && ids@[k] == h {
                    let k = choose|k: int| 0 <= k < i + 1 && ids@[k] == h;
                    if k < i {
                        assert(ob.contains(h));
                        let q = choose|q: int| 0 <= q < ob.len() && ob[q] == h;
                        assert(out@[q] == h);
                    } else if !present {
                        assert(out@[ob.len() as int] == h);
                    }
                }
                if start.contains(h) {
                    assert(ob.contains(h));
                    let q = choose|q: int| 0 <= q < ob.len() && ob[q] == h;
                    assert(out@[q] == h);
                }
            }
        }
        i = i + 1;
    }
    proof {
        assert forall|h: FaceId| out@.to_set().contains(h) <==> start.to_set().union(ids@.to_set()).contains(h) by {
            if ids@.contains(h) {
                let k = choose|k: int| 0 <= k < ids@.len() && ids@[k] == h;
            }
            if out@.contains(h) && !start.contains(h) {
                let k = choose|k: int| 0 <= k < ids@.len() && ids@[k] == h;
                assert(ids@.contains(h));
            }
        }
        assert(out@.to_set() =~= start.to_set().union(ids@.to_set()));
    }
    *list = out;
}

/// The faces of `ids`, each once, in order of first occurrence.
pub fn list_from(ids: &[FaceId]) -> (out: Vec<FaceId>)
    ensures
        out@.no_duplicates(),
        out@.to_set() == ids@.to_set(),
{
    let mut out: Vec<FaceId> = Vec::new();
    let mut i: usize = 0;
    while i < ids.len()
        invariant
            i <= ids@.len(),
            out@.no_duplicates(),
            forall|g: FaceId| out@.contains(g) <==> exists|k: int| 0 <= k < i && ids@[k] == g,
        decreases ids@.len() - i,
    {
        let g = ids[i];
        let present = list_contains(&out, g);
        let ghost ob = out@;
        if !present {
            out.push(g);
            proof {
                assert forall|x: int, y: int| 0 <= x < y < out@.len() implies out@[x] != out@[y] by {
                    if y == ob.len() {
                        assert(ob.contains(out@[x]));
                    }
                }
            }
        }
        proof {
            assert forall|h: FaceId| out@.contains(h) <==> exists|k: int| 0 <= k < i + 1 && ids@[k] == h by {
                if out@.contains(h) {
                    let q = choose|q: int| 0 <= q < out@.len() && out@[q] == h;
                    if q < ob.len() {
                        assert(ob.contains(h));
                    } else {
                        assert(ids@[i as int] == h);
                    }
                }
                if exists|k: int| 0 <= k < i + 1 && ids@[k] == h {
                    let k = choose|k: int| 0 <= k < i + 1 && ids@[k] == h;
                    if k < i {
                        assert(ob.contains(h));
                        let q = choose|q: int| 0 <= q < ob.len() && ob[q] == h;
                        assert(out@[q] == h);
                    } else if !present {
                        assert(out@[ob.len() as int] == h);
                    }
                }
            }
        }
        i = i + 1;
    }
    proof {
        assert forall|h: FaceId| out@.to_set().contains(h) <==> ids@.to_set().contains(h) by {
            if ids@.contains(h) {
                let k = choose|k: int| 0 <= k < ids@.len() && ids@[k] == h;
            }
        }
        assert(out@.to_set() =~= ids@.to_set());
    }
    out
}

} // verus!
