//! Path segmentation: splitting a path string on `/` and trimming a single
//! leading and trailing empty segment, the way the tree addresses nodes.

use vstd::prelude::*;
use vstd::string::StrSliceExecFns;

verus! {

/// The `/`-separated segments of a string, in order. Splitting the empty
/// string yields one empty segment, and every `/` ends the segment before it,
/// so consecutive slashes produce empty segments in the middle.
pub open spec fn split_path(s: Seq<char>) -> Seq<Seq<char>>
    decreases s.len(),
{
    if s.len() == 0 {
        seq![Seq::<char>::empty()]
    } else {
        let init = split_path(s.drop_last());
        if s.last() == '/' {
            init.push(Seq::<char>::empty())
        } else {
            init.update(init.len() - 1, init.last().push(s.last()))
        }
    }
}

/// Drops the first segment if it is empty (a leading `/`), then the last
/// segment if it is empty (a trailing `/`). Nothing else is normalized.
pub open spec fn trim_segs(segs: Seq<Seq<char>>) -> Seq<Seq<char>> {
    let a = if segs.len() > 0 && segs.first().len() == 0 {
        segs.drop_first()
    } else {
        segs
    };
    if a.len() > 0 && a.last().len() == 0 {
        a.drop_last()
    } else {
        a
    }
}

/// The segment sequence a path string addresses: split on `/`, then trimmed.
pub open spec fn path_segs(s: Seq<char>) -> Seq<Seq<char>> {
    trim_segs(split_path(s))
}

proof fn lemma_split_path_len(s: Seq<char>)
    ensures
        split_path(s).len() >= 1,
    decreases s.len(),
{
    if s.len() > 0 {
        lemma_split_path_len(s.drop_last());
    }
}

proof fn lemma_split_path_prepend_slash(s: Seq<char>)
    ensures
        split_path(seq!['/'] + s) == seq![Seq::<char>::empty()] + split_path(s),
    decreases s.len(),
{
    if s.len() == 0 {
        let sl = seq!['/'] + s;
        assert(s =~= Seq::<char>::empty());
        assert(sl =~= seq!['/']);
        assert(sl.drop_last() =~= Seq::<char>::empty());
        assert(sl.last() == '/');
        assert(split_path(Seq::<char>::empty()) == seq![Seq::<char>::empty()]);
        assert(split_path(sl) == split_path(sl.drop_last()).push(Seq::<char>::empty()));
        assert(split_path(sl) =~= seq![Seq::<char>::empty()] + split_path(s));
    } else {
        lemma_split_path_prepend_slash(s.drop_last());
        lemma_split_path_len(s.drop_last());
        let t = seq!['/'] + s;
        assert(t.drop_last() =~= seq!['/'] + s.drop_last());
        assert(t.last() == s.last());
        let p = split_path(seq!['/'] + s.drop_last());
        let q = split_path(s.drop_last());
        if s.last() == '/' {
            assert(split_path(t) == p.push(Seq::<char>::empty()));
            assert(p.push(Seq::<char>::empty()) =~= seq![Seq::<char>::empty()] + q.push(
                Seq::<char>::empty(),
            ));
        } else {
            assert(split_path(t) == p.update(p.len() - 1, p.last().push(s.last())));
            assert(p.last() == q.last());
            assert(p.update(p.len() - 1, p.last().push(s.last())) =~= seq![Seq::<char>::empty()]
                + q.update(q.len() - 1, q.last().push(s.last())));
        }
    }
}

proof fn lemma_split_path_first(s: Seq<char>)
    requires
        s.len() > 0,
        s.first() != '/',
    ensures
        split_path(s).first().len() > 0,
    decreases s.len(),
{
    lemma_split_path_len(s.drop_last());
    if s.len() == 1 {
        assert(s.drop_last() =~= Seq::<char>::empty());
        assert(s.last() == s.first());
    } else {
        lemma_split_path_first(s.drop_last());
        assert(s.drop_last().first() == s.first());
    }
}

proof fn lemma_split_path_last(s: Seq<char>)
    requires
        s.len() > 0,
        s.last() != '/',
    ensures
        split_path(s).last().len() > 0,
{
    lemma_split_path_len(s.drop_last());
}

/// Law: the leading-slash, trailing-slash and bare forms of one logical
/// path address the same segment sequence, so they resolve to one node.
pub proof fn lemma_path_forms(s: Seq<char>)
    requires
        s.len() > 0,
        s.first() != '/',
        s.last() != '/',
    ensures
        path_segs(seq!['/'] + s) == path_segs(s),
        path_segs(s.push('/')) == path_segs(s),
        path_segs((seq!['/'] + s).push('/')) == path_segs(s),
{
    lemma_split_path_len(s);
    lemma_split_path_first(s);
    lemma_split_path_last(s);
    lemma_split_path_prepend_slash(s);
    let a = split_path(s);
    assert(trim_segs(a) == a);
    let b = split_path(seq!['/'] + s);
    assert(b.first().len() == 0);
    assert(b.drop_first() =~= a);
    assert(trim_segs(b) == a);
    assert((s.push('/')).drop_last() =~= s);
    assert((s.push('/')).last() == '/');
    let c = split_path(s.push('/'));
    assert(c == a.push(Seq::<char>::empty()));
    assert(c.first() == a.first());
    assert(c.last().len() == 0);
    assert(c.drop_last() =~= a);
    assert(trim_segs(c) == a);
    let t = (seq!['/'] + s).push('/');
    assert(t.drop_last() =~= seq!['/'] + s);
    assert(t.last() == '/');
    let d = split_path(t);
    assert(d == b.push(Seq::<char>::empty()));
    assert(d.first().len() == 0);
    assert(d.drop_first() =~= a.push(Seq::<char>::empty()));
    assert(d.drop_first().last().len() == 0);
    assert(d.drop_first().drop_last() =~= a);
    assert(trim_segs(d) == a);
}

/// Splits a path string on `/` into owned segment strings.
pub fn split_components(path: &str) -> (segs: Vec<String>)
    ensures
        segs.deep_view() == split_path(path@),
{
    let n = path.unicode_len();
    let mut segs: Vec<String> = Vec::new();
    let mut start: usize = 0;
    let mut i: usize = 0;
    proof {
        assert(segs.deep_view() =~= Seq::<Seq<char>>::empty());
        assert(path@.subrange(0, 0) =~= Seq::<char>::empty());
        assert(path@.take(0) =~= Seq::<char>::empty());
        assert(segs.deep_view().push(path@.subrange(0, 0)) =~= seq![Seq::<char>::empty()]);
    }
    while i < n
        invariant
            n == path@.len(),
            start <= i <= n,
            segs.deep_view().push(path@.subrange(start as int, i as int)) == split_path(
                path@.take(i as int),
            ),
        decreases n - i,
    {
        let ghost dv0 = segs.deep_view();
        let ghost part = path@.subrange(start as int, i as int);
        let c = path.get_char(i);
        proof {
            assert(path@.take(i as int + 1).drop_last() =~= path@.take(i as int));
            assert(path@.take(i as int + 1).last() == path@[i as int]);
            lemma_split_path_len(path@.take(i as int));
        }
        if c == '/' {
            let seg = path.substring_char(start, i).to_owned();
            segs.push(seg);
            start = i + 1;
            proof {
                assert(segs.deep_view() =~= dv0.push(part));
                assert(path@.subrange(start as int, i as int + 1) =~= Seq::<char>::empty());
                assert(segs.deep_view().push(Seq::<char>::empty()) =~= split_path(
                    path@.take(i as int + 1),
                ));
            }
        } else {
            proof {
                let p = dv0.push(part);
                assert(p.last() == part);
                assert(p.update(p.len() - 1, part.push(c)) =~= dv0.push(part.push(c)));
                assert(path@.subrange(start as int, i as int + 1) =~= part.push(c));
            }
        }
        i = i + 1;
    }
    let seg = path.substring_char(start, n).to_owned();
    let ghost dv0 = segs.deep_view();
    segs.push(seg);
    proof {
        assert(segs.deep_view() =~= dv0.push(path@.subrange(start as int, n as int)));
        assert(path@.take(n as int) =~= path@);
    }
    segs
}

/// Trims a single leading and a single trailing empty segment, as the
/// original path form `"/a/b/"` calls for.
pub fn format_components(components: Vec<String>) -> (r: Vec<String>)
    ensures
        r.deep_view() == trim_segs(components.deep_view()),
{
    let ghost dv0 = components.deep_view();
    let mut components = components;
    if components.len() > 0 && components[0].as_str().is_empty() {
        components.remove(0);
        proof {
            assert(components.deep_view() =~= dv0.drop_first());
        }
    }
    let ghost dv1 = components.deep_view();
    if components.len() > 0 {
        let last_i = components.len() - 1;
        if components[last_i].as_str().is_empty() {
            components.pop();
            proof {
                assert(components.deep_view() =~= dv1.drop_last());
            }
        }
    }
    components
}

} // verus!
