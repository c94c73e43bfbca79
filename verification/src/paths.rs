//! Path translation and segment arithmetic.
//!
//! Local paths arrive in the host's separator convention; the remote side
//! understands forward slashes only. A remote path is modelled as the
//! sequence of its non-empty slash-separated segments: `segments` splits,
//! `join` rebuilds, and `mkdir_chain` lists the cumulative ancestor
//! prefixes that a lazy directory-creation pass walks through.

use vstd::prelude::*;

verus! {

/// One-for-one substitution of the native separator by a forward slash.
pub open spec fn translate(s: Seq<char>, sep: char) -> Seq<char> {
    s.map_values(|c: char| if c == sep { '/' } else { c })
}

/// Length of the leading run of non-slash characters.
pub open spec fn seg_len(s: Seq<char>) -> nat
    decreases s.len(),
{
    if s.len() == 0 || s[0] == '/' {
        0
    } else {
        (1 + seg_len(s.skip(1))) as nat
    }
}

/// The leading run never reaches past the end of the path.
pub proof fn lemma_seg_len_le(s: Seq<char>)
    ensures
        seg_len(s) <= s.len(),
    decreases s.len(),
{
    if s.len() == 0 || s[0] == '/' {
    } else {
        lemma_seg_len_le(s.skip(1));
    }
}

/// The slash-separated segments of a path, empty segments dropped.
pub open spec fn segments(s: Seq<char>) -> Seq<Seq<char>>
    decreases s.len(),
    via segments_decreases
{
    if s.len() == 0 {
        Seq::empty()
    } else if s[0] == '/' {
        segments(s.skip(1))
    } else {
        seq![s.take(seg_len(s) as int)] + segments(s.skip(seg_len(s) as int))
    }
}

#[via_fn]
proof fn segments_decreases(s: Seq<char>) {
    if s.len() > 0 && s[0] != '/' {
        lemma_seg_len_le(s);
    }
}

/// Segments rejoined with single slashes, no leading or trailing slash.
pub open spec fn join(segs: Seq<Seq<char>>) -> Seq<char>
    decreases segs.len(),
{
    if segs.len() == 0 {
        Seq::empty()
    } else if segs.len() == 1 {
        segs[0]
    } else {
        join(segs.drop_last()) + seq!['/'] + segs.last()
    }
}

/// An absolute remote path: one that starts with a slash.
pub open spec fn is_abs(s: Seq<char>) -> bool {
    s.len() > 0 && s[0] == '/'
}

/// Appends segments below a base path kept verbatim: the base as given,
/// one slash, then the segments joined — no normalization of the base.
/// With no segments the base stands alone; below an empty base the
/// joined segments stand alone, gaining no leading slash.
pub open spec fn path_join(base: Seq<char>, segs: Seq<Seq<char>>) -> Seq<char> {
    if segs.len() == 0 {
        base
    } else if base.len() == 0 {
        join(segs)
    } else {
        base + seq!['/'] + join(segs)
    }
}

/// The cumulative prefixes visited while creating a store path's
/// ancestors, shortest first, ending with the parent itself: for a
/// relative path the join of the first parent segment, of the first two,
/// and so on; for an absolute path the root `/` comes first and every
/// prefix keeps the leading slash.
pub open spec fn mkdir_chain(store: Seq<char>) -> Seq<Seq<char>> {
    let segs = segments(store);
    let psegs = if segs.len() > 0 {
        segs.drop_last()
    } else {
        segs
    };
    if is_abs(store) {
        Seq::new((psegs.len() + 1) as nat, |k: int| seq!['/'] + join(psegs.take(k)))
    } else {
        Seq::new(psegs.len(), |k: int| join(psegs.take(k + 1)))
    }
}

/// The views of a sequence of owned strings.
pub open spec fn seg_views(v: Seq<String>) -> Seq<Seq<char>> {
    v.map_values(|x: String| x@)
}

/// Taking views commutes with appending one string.
pub proof fn lemma_seg_views_push(s: Seq<String>, x: String)
    ensures
        seg_views(s.push(x)) =~= seg_views(s).push(x@),
{
    assert forall|k: int| 0 <= k < s.len() + 1 implies #[trigger] seg_views(s.push(x))[k]
        == seg_views(s).push(x@)[k] by {
        if k < s.len() {
            assert(s.push(x)[k] == s[k]);
        } else {
            assert(s.push(x)[k] == x);
        }
    }
}

/// Translation never changes the length of a path: the substitution is
/// one character for one character.
pub proof fn lemma_translate_len(s: Seq<char>, sep: char)
    ensures
        translate(s, sep).len() == s.len(),
{
}

/// When the native separator is not itself a slash, the translated path
/// contains no occurrence of it.
pub proof fn lemma_translate_sep_free(s: Seq<char>, sep: char)
    requires
        sep != '/',
    ensures
        forall|i: int| 0 <= i < translate(s, sep).len() ==> translate(s, sep)[i] != sep,
{
}

/// A run of `m` non-slash characters at the front of `t`, ended by the end
/// of `t` or by a slash, is exactly what `seg_len` measures.
pub proof fn lemma_seg_len_run(t: Seq<char>, m: int)
    requires
        0 <= m <= t.len(),
        forall|k: int| 0 <= k < m ==> t[k] != '/',
        m == t.len() || t[m] == '/',
    ensures
        seg_len(t) == m,
    decreases m,
{
    if m == 0 {
    } else {
        assert(t[0] != '/');
        lemma_seg_len_run(t.skip(1), m - 1);
    }
}

/// A proper segment: non-empty and free of slashes.
pub open spec fn is_seg(x: Seq<char>) -> bool {
    x.len() > 0 && forall|k: int| 0 <= k < x.len() ==> x[k] != '/'
}

/// What `seg_len` measures is a maximal slash-free run.
pub proof fn lemma_seg_len_props(s: Seq<char>)
    ensures
        seg_len(s) <= s.len(),
        forall|k: int| 0 <= k < seg_len(s) ==> s[k] != '/',
        seg_len(s) == s.len() || s[seg_len(s) as int] == '/',
    decreases s.len(),
{
    if s.len() == 0 || s[0] == '/' {
    } else {
        lemma_seg_len_props(s.skip(1));
        assert forall|k: int| 0 <= k < seg_len(s) implies s[k] != '/' by {
            if k > 0 {
                assert(s.skip(1)[k - 1] != '/');
            }
        }
        if seg_len(s) < s.len() {
            assert(s[seg_len(s) as int] == s.skip(1)[seg_len(s.skip(1)) as int]);
        }
    }
}

/// Translation distributes over concatenation.
pub proof fn lemma_translate_concat(a: Seq<char>, b: Seq<char>, sep: char)
    ensures
        translate(a + b, sep) == translate(a, sep) + translate(b, sep),
{
    assert(translate(a + b, sep) =~= translate(a, sep) + translate(b, sep));
}

/// Splitting distributes over a slash-joined concatenation: the segments
/// on either side of a separating slash are independent.
pub proof fn lemma_segments_concat(a: Seq<char>, b: Seq<char>)
    ensures
        segments(a + seq!['/'] + b) == segments(a) + segments(b),
    decreases a.len(),
{
    let s = a + seq!['/'] + b;
    if a.len() == 0 {
        assert(s =~= seq!['/'] + b);
        assert(s[0] == '/');
        assert(s.skip(1) =~= b);
        assert(segments(a) + segments(b) =~= segments(b));
    } else if a[0] == '/' {
        assert(s[0] == '/');
        assert(s.skip(1) =~= a.skip(1) + seq!['/'] + b);
        lemma_segments_concat(a.skip(1), b);
        assert(segments(s) == segments(a.skip(1)) + segments(b));
        assert(segments(a) == segments(a.skip(1)));
    } else {
        lemma_seg_len_props(a);
        let m = seg_len(a) as int;
        assert forall|k: int| 0 <= k < m implies s[k] != '/' by {
            assert(s[k] == a[k]);
        }
        if m == a.len() {
            assert(s[m] == '/');
        } else {
            assert(s[m] == a[m]);
        }
        lemma_seg_len_run(s, m);
        assert(s.take(m) =~= a.take(m));
        assert(s.skip(m) =~= a.skip(m) + seq!['/'] + b);
        lemma_segments_concat(a.skip(m), b);
        assert(segments(s) == seq![a.take(m)] + (segments(a.skip(m)) + segments(b)));
        assert(segments(a) == seq![a.take(m)] + segments(a.skip(m)));
        assert(seq![a.take(m)] + (segments(a.skip(m)) + segments(b)) =~= (seq![a.take(m)]
            + segments(a.skip(m))) + segments(b));
    }
}

/// Every segment produced by splitting is proper.
pub proof fn lemma_segments_wf(s: Seq<char>)
    ensures
        forall|i: int| 0 <= i < segments(s).len() ==> #[trigger] is_seg(segments(s)[i]),
    decreases s.len(),
{
    if s.len() == 0 {
    } else if s[0] == '/' {
        lemma_segments_wf(s.skip(1));
        assert forall|i: int| 0 <= i < segments(s).len() implies #[trigger] is_seg(
            segments(s)[i],
        ) by {
            assert(is_seg(segments(s.skip(1))[i]));
        }
    } else {
        lemma_seg_len_props(s);
        let m = seg_len(s) as int;
        lemma_segments_wf(s.skip(m));
        assert(is_seg(s.take(m)));
        assert forall|i: int| 0 <= i < segments(s).len() implies #[trigger] is_seg(
            segments(s)[i],
        ) by {
            assert(segments(s) == seq![s.take(m)] + segments(s.skip(m)));
            if i == 0 {
                assert(segments(s)[0] == s.take(m));
            } else {
                assert(segments(s)[i] == segments(s.skip(m))[i - 1]);
                assert(is_seg(segments(s.skip(m))[i - 1]));
            }
        }
    }
}

/// Joining distributes over concatenation of two non-empty rows, with a
/// single slash at the seam.
pub proof fn lemma_join_concat(a: Seq<Seq<char>>, b: Seq<Seq<char>>)
    requires
        a.len() > 0,
        b.len() > 0,
    ensures
        join(a + b) == join(a) + seq!['/'] + join(b),
    decreases b.len(),
{
    if b.len() == 1 {
        assert((a + b).drop_last() =~= a);
        assert((a + b).last() == b[0]);
        assert(join(b) == b[0]);
    } else {
        lemma_join_concat(a, b.drop_last());
        assert((a + b).drop_last() =~= a + b.drop_last());
        assert((a + b).last() == b.last());
        assert(join(a + b) == join(a + b.drop_last()) + seq!['/'] + b.last());
        assert(join(a) + seq!['/'] + join(b.drop_last()) + seq!['/'] + b.last() =~= join(a)
            + seq!['/'] + (join(b.drop_last()) + seq!['/'] + b.last()));
    }
}

/// A join is never empty when the first piece is not.
pub proof fn lemma_join_nonempty(a: Seq<Seq<char>>)
    requires
        a.len() > 0,
        a[0].len() > 0,
    ensures
        join(a).len() > 0,
    decreases a.len(),
{
    if a.len() == 1 {
    } else {
        lemma_join_nonempty(a.drop_last());
    }
}

/// Dropping the left half of a concatenation leaves the right half.
pub proof fn lemma_skip_concat<A>(a: Seq<A>, b: Seq<A>)
    ensures
        (a + b).skip(a.len() as int) == b,
{
    assert((a + b).skip(a.len() as int) =~= b);
}

/// The heart of depth remapping: a descendant path that literally extends
/// the walked root keeps, after translation and after stripping as many
/// segments as the root has, exactly the segments of its relative part.
pub proof fn lemma_strip_root(root: Seq<char>, rel: Seq<char>, sep: char)
    ensures
        segments(translate(root + seq![sep] + rel, sep)) == segments(translate(root, sep))
            + segments(translate(rel, sep)),
        segments(translate(root + seq![sep] + rel, sep)).skip(
            segments(translate(root, sep)).len() as int,
        ) == segments(translate(rel, sep)),
{
    lemma_translate_concat(root + seq![sep], rel, sep);
    lemma_translate_concat(root, seq![sep], sep);
    assert(translate(seq![sep], sep) =~= seq!['/']);
    assert(translate(root + seq![sep] + rel, sep) == translate(root, sep) + seq!['/'] + translate(
        rel,
        sep,
    ));
    lemma_segments_concat(translate(root, sep), translate(rel, sep));
    lemma_skip_concat(segments(translate(root, sep)), segments(translate(rel, sep)));
}

/// Replaces every native separator in `p` by a forward slash.
pub fn to_remote_form(p: &str, sep: char) -> (r: String)
    ensures
        r@ == translate(p@, sep),
{
    let n = p.unicode_len();
    let mut r = String::new();
    let mut i: usize = 0;
    while i < n
        invariant
            i <= n,
            n == p@.len(),
            r@ == translate(p@.take(i as int), sep),
        decreases n - i,
    {
        let c = p.get_char(i);
        if c == sep {
            r.append("/");
            proof {
                reveal_strlit("/");
            }
        } else {
            let piece = p.substring_char(i, i + 1);
            r.append(piece);
        }
        proof {
            assert(r@ =~= translate(p@.take(i + 1), sep));
        }
        i = i + 1;
    }
    proof {
        assert(p@.take(n as int) =~= p@);
    }
    r
}

/// Relies on String::push: appends exactly one character at the end.
#[verifier::external_body]
pub fn push_char(s: &mut String, c: char)
    ensures
        final(s)@ == old(s)@.push(c),
{
    s.push(c);
}

/// Index just past the run of non-slash characters that starts at `i`.
fn run_end(s: &str, i: usize, n: usize) -> (j: usize)
    requires
        i < n,
        n == s@.len(),
        s@[i as int] != '/',
    ensures
        i < j <= n,
        forall|k: int| i <= k < j ==> s@[k] != '/',
        j == n || s@[j as int] == '/',
{
    let mut j = i + 1;
    while j < n
        invariant
            i < j <= n,
            n == s@.len(),
            forall|k: int| i <= k < j ==> s@[k] != '/',
        decreases n - j,
    {
        let c = s.get_char(j);
        if c == '/' {
            return j;
        }
        j = j + 1;
    }
    j
}

/// Splits a slash-separated path into its non-empty segments.
pub fn split_segments(s: &str) -> (r: Vec<String>)
    ensures
        seg_views(r@) == segments(s@),
{
    let n = s.unicode_len();
    let mut r: Vec<String> = Vec::new();
    let mut i: usize = 0;
    proof {
        assert(s@.skip(0) =~= s@);
        assert(seg_views(r@) + segments(s@) =~= segments(s@));
    }
    while i < n
        invariant
            i <= n,
            n == s@.len(),
            segments(s@) == seg_views(r@) + segments(s@.skip(i as int)),
        decreases n - i,
    {
        let c = s.get_char(i);
        if c == '/' {
            proof {
                assert(s@.skip(i as int).skip(1) =~= s@.skip(i + 1));
            }
            i = i + 1;
        } else {
            let j = run_end(s, i, n);
            let seg = s.substring_char(i, j);
            let owned = seg.to_owned();
            proof {
                let t = s@.skip(i as int);
                assert forall|k: int| 0 <= k < j - i implies t[k] != '/' by {
                    assert(t[k] == s@[i + k]);
                }
                if j < n {
                    assert(t[j - i] == s@[j as int]);
                }
                lemma_seg_len_run(t, j - i);
                assert(t.take(j - i) =~= owned@);
                assert(t.skip(j - i) =~= s@.skip(j as int));
                assert(segments(t) == seq![owned@] + segments(s@.skip(j as int)));
                assert(seg_views(r@.push(owned)) =~= seg_views(r@).push(owned@));
                assert(seg_views(r@).push(owned@) =~= seg_views(r@) + seq![owned@]);
                assert((seg_views(r@) + seq![owned@]) + segments(s@.skip(j as int)) =~= seg_views(
                    r@,
                ) + (seq![owned@] + segments(s@.skip(j as int))));
            }
            r.push(owned);
            i = j;
        }
    }
    proof {
        assert(s@.skip(n as int) =~= Seq::<char>::empty());
        assert(seg_views(r@) + segments(s@.skip(n as int)) =~= seg_views(r@));
    }
    r
}

/// Rejoins segments with single slashes.
pub fn join_segments(segs: &Vec<String>) -> (r: String)
    ensures
        r@ == join(seg_views(segs@)),
{
    let mut r = String::new();
    let mut i: usize = 0;
    while i < segs.len()
        invariant
            i <= segs.len(),
            r@ == join(seg_views(segs@).take(i as int)),
        decreases segs.len() - i,
    {
        if i > 0 {
            r.append("/");
        }
        r.append(segs[i].as_str());
        proof {
            reveal_strlit("/");
            let vs = seg_views(segs@);
            if i == 0 {
                assert(vs.take(1) =~= seq![vs[0]]);
            } else {
                assert(vs.take(i + 1).drop_last() =~= vs.take(i as int));
                assert(vs.take(i + 1).last() == vs[i as int]);
            }
        }
        i = i + 1;
    }
    proof {
        assert(seg_views(segs@).take(segs@.len() as int) =~= seg_views(segs@));
    }
    r
}

/// Appends segments below a base path kept verbatim.
pub fn join_path(base: &str, segs: &Vec<String>) -> (r: String)
    ensures
        r@ == path_join(base@, seg_views(segs@)),
{
    if segs.len() == 0 {
        return base.to_owned();
    }
    let joined = join_segments(segs);
    if base.unicode_len() == 0 {
        proof {
            assert(base@ =~= Seq::<char>::empty());
        }
        return joined;
    }
    let mut r = base.to_owned();
    r.append("/");
    r.append(joined.as_str());
    proof {
        reveal_strlit("/");
        assert(r@ =~= base@ + seq!['/'] + join(seg_views(segs@)));
    }
    r
}

/// The cumulative ancestor prefixes of a store path, shortest first,
/// the parent itself last; an absolute path's prefixes start at the
/// root and keep the leading slash.
pub fn chain_of(store: &str) -> (r: Vec<String>)
    ensures
        seg_views(r@) == mkdir_chain(store@),
{
    let n = store.unicode_len();
    let segs = split_segments(store);
    let mut r: Vec<String> = Vec::new();
    if n == 0 {
        proof {
            assert(seg_views(r@) =~= mkdir_chain(store@));
        }
        return r;
    }
    let c0 = store.get_char(0);
    let ghost vs = seg_views(segs@);
    let pcount: usize = if segs.len() > 0 {
        segs.len() - 1
    } else {
        0
    };
    let ghost ps = if vs.len() > 0 {
        vs.drop_last()
    } else {
        vs
    };
    proof {
        assert(ps =~= vs.take(pcount as int));
    }
    if c0 == '/' {
        let mut cur: String = "/".to_owned();
        proof {
            reveal_strlit("/");
            assert(ps.take(0) =~= Seq::<Seq<char>>::empty());
            assert(cur@ =~= seq!['/'] + join(ps.take(0)));
            assert(seg_views(r@) =~= Seq::new(0, |j: int| seq!['/'] + join(ps.take(j))));
        }
        let mut k: usize = 0;
        while k < pcount
            invariant
                k <= pcount,
                pcount < vs.len() || (pcount == 0 && vs.len() == 0),
                pcount <= segs@.len(),
                vs == seg_views(segs@),
                ps == vs.take(pcount as int),
                cur@ == seq!['/'] + join(ps.take(k as int)),
                seg_views(r@) =~= Seq::new(k as nat, |j: int| seq!['/'] + join(ps.take(j))),
            decreases pcount - k,
        {
            let ghost r0 = r@;
            let entry = cur.clone();
            let ghost pushed: String = entry;
            r.push(entry);
            proof {
                lemma_seg_views_push(r0, pushed);
                assert(seg_views(r@) =~= Seq::new(
                    (k + 1) as nat,
                    |j: int| seq!['/'] + join(ps.take(j)),
                ));
            }
            if k == 0 {
                cur.append(segs[0].as_str());
                proof {
                    assert(ps.take(1) =~= seq![ps[0]]);
                    assert(ps[0] == segs@[0]@);
                    assert(cur@ =~= seq!['/'] + join(ps.take(1)));
                }
            } else {
                cur.append("/");
                cur.append(segs[k].as_str());
                proof {
                    reveal_strlit("/");
                    assert(ps.take(k + 1).drop_last() =~= ps.take(k as int));
                    assert(ps.take(k + 1).last() == ps[k as int]);
                    assert(ps[k as int] == segs@[k as int]@);
                    assert(cur@ =~= seq!['/'] + join(ps.take(k + 1)));
                }
            }
            k = k + 1;
        }
        let ghost r0 = r@;
        let entry = cur.clone();
        let ghost pushed: String = entry;
        r.push(entry);
        proof {
            lemma_seg_views_push(r0, pushed);
            assert(ps.take(pcount as int) =~= ps);
            assert(seg_views(r@) =~= Seq::new(
                (pcount + 1) as nat,
                |j: int| seq!['/'] + join(ps.take(j)),
            ));
            assert(seg_views(r@) =~= mkdir_chain(store@));
        }
        r
    } else {
        proof {
            assert(segments(store@).len() > 0);
        }
        let mut cur: String = segs[0].clone();
        let mut k: usize = 1;
        proof {
            assert(vs.take(1) =~= seq![vs[0]]);
            assert(seg_views(r@) =~= Seq::new(0, |j: int| join(vs.take(j + 1))));
        }
        while k < segs.len()
            invariant
                1 <= k <= segs@.len(),
                vs == seg_views(segs@),
                cur@ == join(vs.take(k as int)),
                seg_views(r@) =~= Seq::new((k - 1) as nat, |j: int| join(vs.take(j + 1))),
            decreases segs@.len() - k,
        {
            let ghost r0 = r@;
            let entry = cur.clone();
            let ghost pushed: String = entry;
            r.push(entry);
            proof {
                lemma_seg_views_push(r0, pushed);
                assert(seg_views(r@) =~= Seq::new(k as nat, |j: int| join(vs.take(j + 1))));
            }
            cur.append("/");
            cur.append(segs[k].as_str());
            proof {
                reveal_strlit("/");
                assert(vs.take(k + 1).drop_last() =~= vs.take(k as int));
                assert(vs.take(k + 1).last() == vs[k as int]);
            }
            k = k + 1;
        }
        proof {
            let psl = if vs.len() > 0 {
                vs.drop_last()
            } else {
                vs
            };
            assert forall|j: int| 0 <= j < psl.len() implies #[trigger] psl.take(j + 1) =~= vs.take(
                j + 1,
            ) by {
            }
            assert(seg_views(r@) =~= mkdir_chain(store@));
        }
        r
    }
}

} // verus!
