use vstd::prelude::*;

verus! {

/// Lexicographic order on byte strings.
pub open spec fn lex_le(a: Seq<u8>, b: Seq<u8>) -> bool
    decreases a.len(),
{
    if a.len() == 0 {
        true
    } else if b.len() == 0 {
        false
    } else if a[0] < b[0] {
        true
    } else if a[0] > b[0] {
        false
    } else {
        lex_le(a.drop_first(), b.drop_first())
    }
}

pub open spec fn lex_lt(a: Seq<u8>, b: Seq<u8>) -> bool {
    lex_le(a, b) && a != b
}

pub proof fn lemma_lex_le_total(a: Seq<u8>, b: Seq<u8>)
    ensures
        lex_le(a, b) || lex_le(b, a),
    decreases a.len(),
{
    if a.len() > 0 && b.len() > 0 && a[0] == b[0] {
        lemma_lex_le_total(a.drop_first(), b.drop_first());
    }
}

pub proof fn lemma_lex_le_antisym(a: Seq<u8>, b: Seq<u8>)
    requires
        lex_le(a, b),
        lex_le(b, a),
    ensures
        a == b,
    decreases a.len(),
{
    if a.len() == 0 {
        assert(b.len() == 0);
        assert(a =~= b);
    } else {
        assert(b.len() > 0);
        assert(a[0] == b[0]);
        lemma_lex_le_antisym(a.drop_first(), b.drop_first());
        assert(a.len() == b.len());
        assert forall|i: int| 0 <= i < a.len() implies a[i] == b[i] by {
            if i > 0 {
                assert(a[i] == a.drop_first()[i - 1]);
                assert(b[i] == b.drop_first()[i - 1]);
            }
        }
        assert(a =~= b);
    }
}

pub proof fn lemma_lex_le_trans(a: Seq<u8>, b: Seq<u8>, c: Seq<u8>)
    requires
        lex_le(a, b),
        lex_le(b, c),
    ensures
        lex_le(a, c),
    decreases a.len(),
{
    if a.len() > 0 && b.len() > 0 && c.len() > 0 && a[0] == b[0] && b[0] == c[0] {
        lemma_lex_le_trans(a.drop_first(), b.drop_first(), c.drop_first());
    }
}

/// Byte-string comparison, proved against the lexicographic order.
pub fn bytes_le(a: &Vec<u8>, b: &Vec<u8>) -> (r: bool)
    ensures
        r == lex_le(a@, b@),
{
    let mut i: usize = 0;
    proof {
        assert(a@.skip(0) =~= a@);
        assert(b@.skip(0) =~= b@);
    }
    while i < a.len() && i < b.len()
        invariant
            i <= a@.len(),
            i <= b@.len(),
            lex_le(a@, b@) == lex_le(a@.skip(i as int), b@.skip(i as int)),
            lex_le(b@, a@) == lex_le(b@.skip(i as int), a@.skip(i as int)),
        decreases a@.len() - i,
    {
        if a[i] < b[i] {
            return true;
        }
        if a[i] > b[i] {
            return false;
        }
        i = i + 1;
        proof {
            assert(a@.skip(i as int) =~= a@.skip(i as int - 1).drop_first());
            assert(b@.skip(i as int) =~= b@.skip(i as int - 1).drop_first());
        }
    }
    proof {
        if i == a.len() {
            assert(a@.skip(i as int) =~= Seq::<u8>::empty());
        } else {
            assert(b@.skip(i as int) =~= Seq::<u8>::empty());
            assert(a@.skip(i as int).len() > 0);
        }
    }
    i == a.len()
}

/// An owned copy of a byte string.
pub fn copy_bytes(v: &Vec<u8>) -> (r: Vec<u8>)
    ensures
        r@ == v@,
{
    let mut r: Vec<u8> = Vec::new();
    let mut i: usize = 0;
    while i < v.len()
        invariant
            i <= v@.len(),
            r@ == v@.take(i as int),
        decreases v@.len() - i,
    {
        r.push(v[i]);
        i = i + 1;
        proof {
            assert(v@.take(i as int) =~= v@.take(i as int - 1).push(v@[i as int - 1]));
        }
    }
    proof {
        assert(v@.take(i as int) =~= v@);
    }
    r
}

/// Byte-string equality, proved against view equality.
pub fn bytes_eq(a: &Vec<u8>, b: &Vec<u8>) -> (r: bool)
    ensures
        r == (a@ == b@),
{
    if a.len() != b.len() {
        return false;
    }
    let mut i: usize = 0;
    while i < a.len()
        invariant
            i <= a@.len(),
            a@.len() == b@.len(),
            forall|j: int| 0 <= j < i ==> a@[j] == b@[j],
        decreases a@.len() - i,
    {
        if a[i] != b[i] {
            return false;
        }
        i = i + 1;
    }
    proof {
        assert(a@ =~= b@);
    }
    true
}

/// The names of a palette, strictly increasing: sorted with no duplicates.
pub open spec fn names_sorted(ns: Seq<Seq<u8>>) -> bool {
    forall|i: int, j: int| 0 <= i < j < ns.len() ==> lex_lt(#[trigger] ns[i], #[trigger] ns[j])
}

/// The global style palette: the category names of every registered grammar,
/// deduplicated and kept in one canonical order, so that the index of a name
/// depends only on which names exist, never on registration order.
pub struct Palette {
    pub names: Vec<Vec<u8>>,
}

impl Palette {
    pub open spec fn view_names(&self) -> Seq<Seq<u8>> {
        self.names.deep_view()
    }

    pub open spec fn wf(&self) -> bool {
        names_sorted(self.view_names())
    }

    pub open spec fn has(&self, name: Seq<u8>) -> bool {
        self.view_names().contains(name)
    }

    pub fn new() -> (r: Palette)
        ensures
            r.wf(),
            r.view_names() =~= Seq::<Seq<u8>>::empty(),
    {
        let r = Palette { names: Vec::new() };
        proof {
            assert(r.view_names() =~= Seq::<Seq<u8>>::empty());
        }
        r
    }

    pub fn len(&self) -> (r: usize)
        ensures
            r == self.view_names().len(),
    {
        self.names.len()
    }

    /// The index of a name, if it is present; with a well-formed palette the
    /// index is unique.
    pub fn index_of(&self, name: &Vec<u8>) -> (r: Option<usize>)
        ensures
            match r {
                Some(i) => i < self.view_names().len() && self.view_names()[i as int] == name@,
                None => !self.has(name@),
            },
    {
        let mut i: usize = 0;
        while i < self.names.len()
            invariant
                i <= self.view_names().len(),
                self.view_names().len() == self.names@.len(),
                forall|j: int| 0 <= j < i ==> self.view_names()[j] != name@,
            decreases self.names@.len() - i,
        {
            proof {
                assert(self.view_names()[i as int] == self.names@[i as int]@);
            }
            if bytes_eq(&self.names[i], name) {
                return Some(i);
            }
            i = i + 1;
        }
        proof {
            if self.has(name@) {
                let w = choose|w: int|
                    0 <= w < self.view_names().len() && self.view_names()[w] == name@;
                assert(false);
            }
        }
        None
    }

    /// Merge one category name: already-present names are kept, a new one is
    /// put at its place in the canonical order.
    pub fn merge_name(&mut self, name: &Vec<u8>)
        requires
            old(self).wf(),
        ensures
            final(self).wf(),
            forall|x: Seq<u8>| final(self).has(x) <==> (old(self).has(x) || x == name@),
    {
        let ghost pre = self.view_names();
        let mut pos: usize = 0;
        proof {
            assert(forall|j: int| 0 <= j < pre.len() ==> pre[j] == self.names@[j]@);
        }
        while pos < self.names.len() && !bytes_le(name, &self.names[pos])
            invariant
                pos <= pre.len(),
                self.view_names() == pre,
                self.names@.len() == pre.len(),
                forall|j: int| 0 <= j < pre.len() ==> pre[j] == self.names@[j]@,
                forall|j: int| 0 <= j < pos ==> !lex_le(name@, #[trigger] pre[j]),
            decreases self.names@.len() - pos,
        {
            pos = pos + 1;
        }
        if pos < self.names.len() && bytes_eq(&self.names[pos], name) {
            proof {
                assert(self.view_names()[pos as int] == name@);
                assert(self.has(name@));
            }
            return;
        }
        let fresh = copy_bytes(name);
        self.names.insert(pos, fresh);
        proof {
            assert forall|j: int| 0 <= j < self.view_names().len() implies self.view_names()[j]
                == pre.insert(pos as int, name@)[j] by {
                assert(self.view_names()[j] == self.names@[j]@);
            }
            assert(self.view_names() =~= pre.insert(pos as int, name@));
            let s2 = self.view_names();
            assert(pos < pre.len() ==> lex_le(name@, pre[pos as int]) && pre[pos as int] != name@);
            // strict order around the insertion point
            assert forall|i: int, j: int| 0 <= i < j < s2.len() implies lex_lt(
                #[trigger] s2[i],
                #[trigger] s2[j],
            ) by {
                if (pos as int) < pre.len() {
                    lemma_lex_le_total(name@, pre[pos as int]);
                }
                if i < pos && j == pos {
                    assert(s2[i] == pre[i] && s2[j] == name@);
                    lemma_lex_le_total(name@, pre[i]);
                    assert(lex_le(pre[i], name@));
                    if pre[i] == name@ {
                        assert(!lex_le(name@, pre[i]));
                        assert(lex_le(name@, name@)) by {
                            lemma_lex_le_total(name@, name@);
                        }
                        assert(false);
                    }
                } else if i == pos && j > pos {
                    assert(s2[i] == name@ && s2[j] == pre[j - 1]);
                    assert(lex_le(name@, pre[pos as int]));
                    if pos < j - 1 {
                        assert(lex_lt(pre[pos as int], pre[j - 1]));
                        lemma_lex_le_trans(name@, pre[pos as int], pre[j - 1]);
                    }
                    if name@ == pre[j - 1] {
                        if pos == j - 1 {
                            assert(false);
                        } else {
                            lemma_lex_le_antisym(pre[pos as int], pre[j - 1]);
                            assert(false);
                        }
                    }
                } else if i < pos && j > pos {
                    assert(s2[i] == pre[i] && s2[j] == pre[j - 1]);
                } else if j < pos {
                    assert(s2[i] == pre[i] && s2[j] == pre[j]);
                } else if i > pos {
                    assert(s2[i] == pre[i - 1] && s2[j] == pre[j - 1]);
                }
            }
            assert forall|x: Seq<u8>| #[trigger] self.has(x) <==> (old(self).has(x) || x
                == name@) by {
                assert(old(self).has(x) == names_contains(pre, x));
                if self.has(x) {
                    let w = choose|w: int| 0 <= w < s2.len() && s2[w] == x;
                    if w < pos {
                        assert(pre[w] == x);
                        assert(pre.contains(x));
                    } else if w > pos {
                        assert(pre[w - 1] == x);
                        assert(pre.contains(x));
                    } else {
                        assert(x == name@);
                    }
                }
                if names_contains(pre, x) {
                    let w = choose|w: int| 0 <= w < pre.len() && pre[w] == x;
                    if w < pos {
                        assert(s2[w] == x);
                        assert(s2.contains(x));
                    } else {
                        assert(s2[w + 1] == x);
                        assert(s2.contains(x));
                    }
                }
                if x == name@ {
                    assert(s2[pos as int] == name@);
                    assert(s2.contains(x));
                }
            }
        }
    }

    /// Merge every name of one grammar's vocabulary into the shared palette.
    pub fn merge_names(&mut self, names: &Vec<Vec<u8>>)
        requires
            old(self).wf(),
        ensures
            final(self).wf(),
            forall|x: Seq<u8>|
                final(self).has(x) <==> (old(self).has(x) || names.deep_view().contains(x)),
    {
        let mut k: usize = 0;
        while k < names.len()
            invariant
                k <= names@.len(),
                self.wf(),
                forall|x: Seq<u8>|
                    self.has(x) <==> (old(self).has(x) || names.deep_view().take(
                        k as int,
                    ).contains(x)),
            decreases names@.len() - k,
        {
            let ghost mid = *self;
            self.merge_name(&names[k]);
            k = k + 1;
            proof {
                assert forall|x: Seq<u8>|
                    self.has(x) <==> (old(self).has(x) || names.deep_view().take(
                        k as int,
                    ).contains(x)) by {
                    let t = names.deep_view().take(k as int);
                    assert(t[k as int - 1] == names.deep_view()[k as int - 1]);
                    assert(names.deep_view()[k as int - 1] == names@[k as int - 1]@);
                    if names.deep_view().take(k as int - 1).contains(x) {
                        let w = choose|w: int|
                            0 <= w < k - 1 && #[trigger] names.deep_view().take(k as int - 1)[w]
                                == x;
                        assert(t[w] == x);
                    }
                    if t.contains(x) {
                        let w = choose|w: int| 0 <= w < k && t[w] == x;
                        if w < k - 1 {
                            assert(names.deep_view().take(k as int - 1)[w] == x);
                        }
                    }
                }
            }
        }
        proof {
            assert(names.deep_view().take(k as int) =~= names.deep_view());
        }
    }
}

pub open spec fn names_contains(ns: Seq<Seq<u8>>, x: Seq<u8>) -> bool {
    ns.contains(x)
}

/// Palette stability: two well-formed palettes that hold the same set of
/// names are the same sequence, so every shared name has the same index no
/// matter in which order the grammars were registered.
pub proof fn lemma_palette_order_independent(p1: Seq<Seq<u8>>, p2: Seq<Seq<u8>>)
    requires
        names_sorted(p1),
        names_sorted(p2),
        forall|x: Seq<u8>| p1.contains(x) <==> p2.contains(x),
    ensures
        p1 == p2,
    decreases p1.len(),
{
    if p1.len() == 0 {
        if p2.len() > 0 {
            assert(p2.contains(p2[0]));
            assert(false);
        }
        assert(p1 =~= p2);
    } else {
        assert(p1.contains(p1.last()));
        assert(p2.contains(p2.last()));
        let i = choose|i: int| 0 <= i < p2.len() && p2[i] == p1.last();
        let j = choose|j: int| 0 <= j < p1.len() && p1[j] == p2.last();
        // each last is the unique maximum, so they coincide
        assert(lex_le(p1.last(), p2.last())) by {
            if i < p2.len() - 1 {
                assert(lex_lt(p2[i], p2.last()));
            } else {
                lemma_lex_le_total(p1.last(), p1.last());
            }
        }
        assert(lex_le(p2.last(), p1.last())) by {
            if j < p1.len() - 1 {
                assert(lex_lt(p1[j], p1.last()));
            } else {
                lemma_lex_le_total(p2.last(), p2.last());
            }
        }
        lemma_lex_le_antisym(p1.last(), p2.last());
        let q1 = p1.drop_last();
        let q2 = p2.drop_last();
        assert forall|x: Seq<u8>| q1.contains(x) <==> q2.contains(x) by {
            if q1.contains(x) {
                let w = choose|w: int| 0 <= w < q1.len() && q1[w] == x;
                assert(p1[w] == x);
                assert(lex_lt(p1[w], p1.last()));
                assert(p2.contains(x));
                let v = choose|v: int| 0 <= v < p2.len() && p2[v] == x;
                if v == p2.len() - 1 {
                    assert(x == p2.last());
                    assert(false);
                }
                assert(q2[v] == x);
            }
            if q2.contains(x) {
                let w = choose|w: int| 0 <= w < q2.len() && q2[w] == x;
                assert(p2[w] == x);
                assert(lex_lt(p2[w], p2.last()));
                assert(p1.contains(x));
                let v = choose|v: int| 0 <= v < p1.len() && p1[v] == x;
                if v == p1.len() - 1 {
                    assert(x == p1.last());
                    assert(false);
                }
                assert(q1[v] == x);
            }
        }
        assert(names_sorted(q1)) by {
            assert(forall|i: int| 0 <= i < q1.len() ==> q1[i] == p1[i]);
        }
        assert(names_sorted(q2)) by {
            assert(forall|i: int| 0 <= i < q2.len() ==> q2[i] == p2[i]);
        }
        lemma_palette_order_independent(q1, q2);
        assert(p1.len() == p2.len());
        assert forall|i: int| 0 <= i < p1.len() implies p1[i] == p2[i] by {
            if i < p1.len() - 1 {
                assert(p1[i] == q1[i] && p2[i] == q2[i]);
            }
        }
        assert(p1 =~= p2);
    }
}

} // verus!
