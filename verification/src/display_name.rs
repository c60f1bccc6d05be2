//! Display-name disambiguation.
//!
//! Every vault path is cut into components and kept leaf first (deepest
//! segment in front). Two paths are told apart by their divergence prefix:
//! the leaf-first run of components up to and including the first position
//! where they differ. A path's display name is the longest divergence prefix
//! it needs against any of its peers, turned back into root-to-leaf order and
//! joined with the separator; a kept root component contributes its one
//! separator and nothing more.

use vstd::prelude::*;

verus! {

/// Length of the divergence prefix of two sequences walked in lockstep: the
/// first differing position is included and nothing after it; if no position
/// differs within the shared length, the whole shared length is kept.
pub open spec fn div_len<T>(a: Seq<T>, b: Seq<T>) -> nat
    decreases a.len(),
{
    if a.len() == 0 || b.len() == 0 {
        0
    } else if a[0] != b[0] {
        1
    } else {
        (1 + div_len(a.drop_first(), b.drop_first())) as nat
    }
}

/// The divergence prefix never reaches past the shorter sequence.
pub proof fn lemma_div_len_le<T>(a: Seq<T>, b: Seq<T>)
    ensures
        div_len(a, b) <= a.len(),
        div_len(a, b) <= b.len(),
    decreases a.len(),
{
    if a.len() == 0 || b.len() == 0 {
    } else if a[0] != b[0] {
    } else {
        lemma_div_len_le(a.drop_first(), b.drop_first());
    }
}

/// Divergence length only compares positions pairwise, so it is symmetric.
pub proof fn lemma_div_len_sym<T>(a: Seq<T>, b: Seq<T>)
    ensures
        div_len(a, b) == div_len(b, a),
    decreases a.len(),
{
    if a.len() == 0 || b.len() == 0 {
    } else if a[0] != b[0] {
    } else {
        lemma_div_len_sym(a.drop_first(), b.drop_first());
    }
}

/// Both sequences agree on every position strictly before the last one kept.
pub proof fn lemma_div_len_prefix_eq<T>(a: Seq<T>, b: Seq<T>)
    ensures
        forall|k: int| 0 <= k < div_len(a, b) - 1 ==> a[k] == b[k],
    decreases a.len(),
{
    if a.len() == 0 || b.len() == 0 {
    } else if a[0] != b[0] {
    } else {
        lemma_div_len_prefix_eq(a.drop_first(), b.drop_first());
        lemma_div_len_le(a.drop_first(), b.drop_first());
        assert forall|k: int| 0 <= k < div_len(a, b) - 1 implies a[k] == b[k] by {
            if k > 0 {
                assert(0 <= k - 1 < div_len(a.drop_first(), b.drop_first()) - 1);
                assert(a.drop_first()[k - 1] == b.drop_first()[k - 1]);
                assert(a[k] == a.drop_first()[k - 1]);
                assert(b[k] == b.drop_first()[k - 1]);
            }
        }
    }
}

/// If the first difference sits at position `i`, the divergence prefix ends
/// right there, with length `i + 1`.
pub proof fn lemma_div_len_stops<T>(a: Seq<T>, b: Seq<T>, i: int)
    requires
        0 <= i < a.len(),
        i < b.len(),
        forall|k: int| 0 <= k < i ==> a[k] == b[k],
        a[i] != b[i],
    ensures
        div_len(a, b) == i + 1,
    decreases i,
{
    if i == 0 {
    } else {
        assert(a[0] == b[0]);
        assert forall|k: int| 0 <= k < i - 1 implies a.drop_first()[k] == b.drop_first()[k] by {
            assert(a[k + 1] == b[k + 1]);
        }
        assert(a.drop_first()[i - 1] != b.drop_first()[i - 1]);
        lemma_div_len_stops(a.drop_first(), b.drop_first(), i - 1);
    }
}

/// If no position differs within the shared length, the whole shared length
/// is the divergence prefix.
pub proof fn lemma_div_len_full<T>(a: Seq<T>, b: Seq<T>)
    requires
        forall|k: int| 0 <= k < a.len() && k < b.len() ==> a[k] == b[k],
    ensures
        div_len(a, b) == if a.len() <= b.len() {
            a.len()
        } else {
            b.len()
        },
    decreases a.len(),
{
    if a.len() == 0 || b.len() == 0 {
    } else {
        assert(a[0] == b[0]);
        assert forall|k: int|
            0 <= k < a.drop_first().len() && k < b.drop_first().len() implies a.drop_first()[k]
            == b.drop_first()[k] by {
            assert(a[k + 1] == b[k + 1]);
        }
        lemma_div_len_full(a.drop_first(), b.drop_first());
    }
}

/// Shorten two sequences to their divergence prefixes: both are walked in
/// lockstep and cut right after the first position where they differ, or at
/// the end of the shorter one if no position differs.
pub fn get_divergence(e1: Vec<u64>, e2: Vec<u64>) -> (r: (Vec<u64>, Vec<u64>))
    ensures
        r.0@ == e1@.take(div_len(e1@, e2@) as int),
        r.1@ == e2@.take(div_len(e1@, e2@) as int),
{
    let min = if e1.len() < e2.len() {
        e1.len()
    } else {
        e2.len()
    };
    let mut d1: Vec<u64> = Vec::new();
    let mut d2: Vec<u64> = Vec::new();
    let mut i: usize = 0;
    let mut diverged = false;
    while i < min && !diverged
        invariant
            min <= e1@.len(),
            min <= e2@.len(),
            min == if e1@.len() <= e2@.len() {
                e1@.len()
            } else {
                e2@.len()
            },
            0 <= i <= min,
            d1@ == e1@.take(i as int),
            d2@ == e2@.take(i as int),
            !diverged ==> forall|k: int| 0 <= k < i ==> e1@[k] == e2@[k],
            diverged ==> i >= 1 && e1@[i - 1] != e2@[i - 1] && forall|k: int|
                0 <= k < i - 1 ==> e1@[k] == e2@[k],
        decreases min - i,
    {
        d1.push(e1[i]);
        d2.push(e2[i]);
        diverged = e1[i] != e2[i];
        i = i + 1;
        assert(d1@ =~= e1@.take(i as int));
        assert(d2@ =~= e2@.take(i as int));
    }
    proof {
        if diverged {
            lemma_div_len_stops(e1@, e2@, i - 1);
        } else {
            lemma_div_len_full(e1@, e2@);
        }
    }
    (d1, d2)
}

/// The stretches of `s` between occurrences of the separator, in order,
/// empty stretches included.
pub open spec fn raw_segments(s: Seq<char>) -> Seq<Seq<char>>
    decreases s.len(),
{
    if s.len() == 0 {
        seq![Seq::<char>::empty()]
    } else if s[0] == '/' {
        seq![Seq::<char>::empty()] + raw_segments(s.drop_first())
    } else {
        let rest = raw_segments(s.drop_first());
        seq![seq![s[0]] + rest[0]] + rest.drop_first()
    }
}

/// Splitting always yields at least the stretch before the first separator.
pub proof fn lemma_raw_segments_nonempty(s: Seq<char>)
    ensures
        raw_segments(s).len() >= 1,
    decreases s.len(),
{
    if s.len() == 0 {
    } else {
        lemma_raw_segments_nonempty(s.drop_first());
    }
}

/// No stretch between separators holds the separator itself.
pub proof fn lemma_raw_segments_slash_free(s: Seq<char>)
    ensures
        forall|k: int, c: int|
            0 <= k < raw_segments(s).len() && 0 <= c < raw_segments(s)[k].len()
                ==> raw_segments(s)[k][c] != '/',
    decreases s.len(),
{
    if s.len() == 0 {
    } else if s[0] == '/' {
        lemma_raw_segments_slash_free(s.drop_first());
        let rest = raw_segments(s.drop_first());
        assert forall|k: int, c: int|
            0 <= k < raw_segments(s).len() && 0 <= c < raw_segments(s)[k].len() implies
            raw_segments(s)[k][c] != '/' by {
            if k > 0 {
                assert(raw_segments(s)[k] == rest[k - 1]);
            }
        }
    } else {
        lemma_raw_segments_slash_free(s.drop_first());
        lemma_raw_segments_nonempty(s.drop_first());
        let rest = raw_segments(s.drop_first());
        assert forall|k: int, c: int|
            0 <= k < raw_segments(s).len() && 0 <= c < raw_segments(s)[k].len() implies
            raw_segments(s)[k][c] != '/' by {
            if k == 0 {
                assert(raw_segments(s)[0] == seq![s[0]] + rest[0]);
                if c > 0 {
                    assert(raw_segments(s)[0][c] == rest[0][c - 1]);
                }
            } else {
                assert(raw_segments(s)[k] == rest.drop_first()[k - 1]);
                assert(rest.drop_first()[k - 1] == rest[k]);
            }
        }
    }
}

/// The normalized components of a path string, root first: the separator
/// stretches are dropped when empty or a bare current-directory dot, a
/// leading root separator stays as a component of its own, and so does a
/// leading current-directory dot of a relative path.
pub open spec fn components_of(s: Seq<char>) -> Seq<Seq<char>> {
    let segs = raw_segments(s).filter(|c: Seq<char>| c.len() > 0 && c != seq!['.']);
    if s.len() > 0 && s[0] == '/' {
        seq![seq!['/']] + segs
    } else if raw_segments(s)[0] == seq!['.'] {
        seq![seq!['.']] + segs
    } else {
        segs
    }
}

/// The components of a path in leaf-first order: deepest segment in front,
/// the root at the back.
pub open spec fn leaf_components_of(s: Seq<char>) -> Seq<Seq<char>> {
    components_of(s).reverse()
}

/// Relies on std::path::Path::components for splitting a path into its
/// normalized components under this platform's Unix path syntax: stretches
/// between separators in order, empty and bare-dot stretches dropped, a
/// leading root separator and a leading current-directory dot kept as
/// components of their own. Each component is carried over into an owned
/// string; the input is valid text, so the conversion loses nothing.
#[verifier::external_body]
fn path_components(s: &str) -> (r: Vec<String>)
    ensures
        r.deep_view() == components_of(s@),
{
    std::path::Path::new(s)
        .components()
        .map(|c| c.as_os_str().to_string_lossy().into_owned())
        .collect()
}

/// Split a path string into its normalized components, leaf first, using the
/// platform's own path-splitting rules rather than naive text splitting.
pub fn split_path(s: &String) -> (r: Vec<String>)
    ensures
        r.deep_view() == leaf_components_of(s@),
{
    let cs = path_components(s.as_str());
    let mut r: Vec<String> = Vec::new();
    let mut i: usize = cs.len();
    while i > 0
        invariant
            0 <= i <= cs@.len(),
            r@.len() == cs@.len() - i,
            forall|j: int| 0 <= j < r@.len() ==> r@[j]@ == cs.deep_view()[cs@.len() - 1 - j],
        decreases i,
    {
        i = i - 1;
        r.push(cs[i].clone());
    }
    proof {
        assert(r.deep_view() =~= leaf_components_of(s@));
    }
    r
}

/// Length of the divergence prefix that two component vectors would keep.
pub fn divergence_len(a: &Vec<String>, b: &Vec<String>) -> (n: usize)
    ensures
        n == div_len(a.deep_view(), b.deep_view()),
{
    let min = if a.len() < b.len() {
        a.len()
    } else {
        b.len()
    };
    let mut i: usize = 0;
    while i < min
        invariant
            min <= a@.len(),
            min <= b@.len(),
            min == if a@.len() <= b@.len() {
                a@.len()
            } else {
                b@.len()
            },
            0 <= i <= min,
            forall|k: int| 0 <= k < i ==> a.deep_view()[k] == b.deep_view()[k],
        decreases min - i,
    {
        if !(a[i] == b[i]) {
            proof {
                lemma_div_len_stops(a.deep_view(), b.deep_view(), i as int);
            }
            return i + 1;
        }
        i = i + 1;
    }
    proof {
        lemma_div_len_full(a.deep_view(), b.deep_view());
    }
    min
}

/// The longest divergence prefix that entry `i` needs against the peers with
/// index below `n`; `i` itself is never a peer of its own.
pub open spec fn max_div_upto(cs: Seq<Seq<Seq<char>>>, i: int, n: int) -> nat
    decreases n,
{
    if n <= 0 {
        0
    } else if n - 1 == i {
        max_div_upto(cs, i, n - 1)
    } else {
        let m = max_div_upto(cs, i, n - 1);
        let d = div_len(cs[i], cs[n - 1]);
        if d > m {
            d
        } else {
            m
        }
    }
}

/// The longest needed prefix never reaches past the entry's own components.
pub proof fn lemma_max_div_le(cs: Seq<Seq<Seq<char>>>, i: int, n: int)
    requires
        0 <= i < cs.len(),
        n <= cs.len(),
    ensures
        max_div_upto(cs, i, n) <= cs[i].len(),
    decreases n,
{
    if n <= 0 {
    } else {
        lemma_max_div_le(cs, i, n - 1);
        if n - 1 != i {
            lemma_div_len_le(cs[i], cs[n - 1]);
        }
    }
}

/// The longest needed prefix covers the divergence against every single peer.
pub proof fn lemma_max_div_ge(cs: Seq<Seq<Seq<char>>>, i: int, n: int, j: int)
    requires
        0 <= j < n,
        j != i,
    ensures
        max_div_upto(cs, i, n) >= div_len(cs[i], cs[j]),
    decreases n,
{
    if n - 1 == j {
    } else {
        lemma_max_div_ge(cs, i, n - 1, j);
    }
}

/// When it is positive, the longest needed prefix is attained by some peer.
pub proof fn lemma_max_div_attained(cs: Seq<Seq<Seq<char>>>, i: int, n: int)
    requires
        max_div_upto(cs, i, n) > 0,
    ensures
        exists|j: int|
            0 <= j < n && j != i && div_len(cs[i], cs[j]) == max_div_upto(cs, i, n),
    decreases n,
{
    if n <= 0 {
    } else if n - 1 == i {
        lemma_max_div_attained(cs, i, n - 1);
    } else {
        let m = max_div_upto(cs, i, n - 1);
        let d = div_len(cs[i], cs[n - 1]);
        if d > m {
            assert(div_len(cs[i], cs[n - 1]) == max_div_upto(cs, i, n));
        } else {
            lemma_max_div_attained(cs, i, n - 1);
        }
    }
}

/// The leaf-first component prefix that entry `i` of the set keeps: the
/// longest divergence prefix against any peer, or all of its components when
/// it has no peer.
pub open spec fn chosen_prefix(cs: Seq<Seq<Seq<char>>>, i: int) -> Seq<Seq<char>> {
    if cs.len() == 1 {
        cs[i]
    } else {
        cs[i].take(max_div_upto(cs, i, cs.len() as int) as int)
    }
}

/// Components joined in the order given, with the separator between each
/// neighbouring pair.
pub open spec fn join_slash(ss: Seq<Seq<char>>) -> Seq<char>
    decreases ss.len(),
{
    if ss.len() == 0 {
        Seq::empty()
    } else if ss.len() == 1 {
        ss[0]
    } else {
        ss[0] + seq!['/'] + join_slash(ss.drop_first())
    }
}

/// Joining one more component appends a separator and that component.
pub proof fn lemma_join_slash_push(v: Seq<Seq<char>>, x: Seq<char>)
    ensures
        join_slash(v.push(x)) == if v.len() == 0 {
            x
        } else {
            join_slash(v) + seq!['/'] + x
        },
    decreases v.len(),
{
    if v.len() == 0 {
        assert(v.push(x)[0] == x);
    } else if v.len() == 1 {
        assert(v.push(x).drop_first() =~= seq![x]);
        assert(v.push(x)[0] == v[0]);
        assert(join_slash(seq![x]) == x);
        assert(join_slash(v.push(x)) == v[0] + seq!['/'] + x);
        assert(join_slash(v) == v[0]);
    } else {
        lemma_join_slash_push(v.drop_first(), x);
        assert(v.push(x).drop_first() =~= v.drop_first().push(x));
        assert(v.push(x)[0] == v[0]);
        assert(join_slash(v) + seq!['/'] + x == v[0] + seq!['/'] + (join_slash(v.drop_first())
            + seq!['/'] + x));
    }
}

/// Root-to-leaf components joined for display: the separator stands between
/// neighbouring components, except right after a leading root component,
/// which carries its own separator already.
pub open spec fn join_display(r: Seq<Seq<char>>) -> Seq<char> {
    if r.len() >= 2 && r[0] == seq!['/'] {
        seq!['/'] + join_slash(r.drop_first())
    } else {
        join_slash(r)
    }
}

/// The display string of a leaf-first component sequence: the components put
/// back into root-to-leaf order and joined, a kept root contributing its one
/// separator and nothing more, so that a path equal to its own rejoined
/// components comes back unchanged.
pub open spec fn display_of(c: Seq<Seq<char>>) -> Seq<char> {
    join_display(c.reverse())
}

/// What resolving a set of paths yields: for each path, the display string
/// of the component prefix chosen for it against all of its peers.
pub open spec fn resolve_spec(paths: Seq<Seq<char>>) -> Seq<Seq<char>> {
    let cs = paths.map_values(|p: Seq<char>| leaf_components_of(p));
    Seq::new(paths.len(), |i: int| display_of(chosen_prefix(cs, i)))
}

/// Join a leaf-first prefix of the given components into a root-to-leaf
/// display string: the separator stands between neighbouring components,
/// except right after a leading root component, which carries its own.
fn join_rootward(c: &Vec<String>, len: usize) -> (r: String)
    requires
        len <= c@.len(),
    ensures
        r@ == display_of(c.deep_view().take(len as int)),
{
    let ghost rev = c.deep_view().take(len as int).reverse();
    let mut s = String::new();
    let mut k: usize = 0;
    let mut rooted = false;
    if len >= 2 {
        let head = &c[len - 1];
        if head.as_str().unicode_len() == 1 && head.as_str().get_char(0) == '/' {
            rooted = true;
        }
    }
    proof {
        if len >= 1 {
            assert(rev[0] == c.deep_view()[len - 1]);
            assert(c.deep_view()[len - 1] == c@[len - 1]@);
        }
        if rooted {
            assert(c@[len - 1]@ =~= seq!['/']);
        } else if len >= 2 {
            assert(c@[len - 1]@ != seq!['/']) by {
                if c@[len - 1]@ == seq!['/'] {
                    assert(c@[len - 1]@.len() == 1);
                    assert(c@[len - 1]@[0] == '/');
                }
            }
        }
    }
    if rooted {
        s.append(c[len - 1].as_str());
        k = 1;
        proof {
            assert(rev.drop_first().take(0) =~= Seq::<Seq<char>>::empty());
            assert(s@ =~= seq!['/'] + join_slash(rev.drop_first().take(0)));
        }
    }
    while k < len
        invariant
            0 <= k <= len <= c@.len(),
            rev == c.deep_view().take(len as int).reverse(),
            rev.len() == len,
            rooted ==> len >= 2 && rev[0] == seq!['/'] && k >= 1,
            !rooted ==> !(len >= 2 && rev[0] == seq!['/']),
            rooted ==> s@ == seq!['/'] + join_slash(rev.drop_first().take(k as int - 1)),
            !rooted ==> s@ == join_slash(rev.take(k as int)),
        decreases len - k,
    {
        proof {
            reveal_strlit("/");
            assert("/"@ =~= seq!['/']);
            assert(rev[k as int] == c.deep_view()[len - 1 - k]);
            if rooted {
                lemma_join_slash_push(
                    rev.drop_first().take(k as int - 1),
                    rev.drop_first()[k as int - 1],
                );
                assert(rev.drop_first().take(k as int - 1).push(rev.drop_first()[k as int - 1])
                    =~= rev.drop_first().take(k as int));
                assert(rev.drop_first()[k as int - 1] == rev[k as int]);
            } else {
                lemma_join_slash_push(rev.take(k as int), rev[k as int]);
                assert(rev.take(k as int).push(rev[k as int]) =~= rev.take(k as int + 1));
            }
        }
        if (rooted && k > 1) || (!rooted && k > 0) {
            s.append("/");
        }
        s.append(c[len - 1 - k].as_str());
        k = k + 1;
    }
    proof {
        if rooted {
            assert(rev.drop_first().take(len as int - 1) =~= rev.drop_first());
        } else {
            assert(rev.take(len as int) =~= rev);
        }
    }
    s
}

/// Shorten every vault path in the set to the shortest root-to-leaf suffix
/// that still tells it apart from each of its peers: the output lines up
/// with the input, and entry `i` is the display string of the longest
/// divergence prefix that path `i` needs against any other path, or the whole
/// path when it stands alone.
pub fn make_unique(vaults: Vec<String>) -> (r: Vec<String>)
    ensures
        r@.len() == vaults@.len(),
        r.deep_view() == resolve_spec(vaults.deep_view()),
{
    let ghost paths = vaults.deep_view();
    let ghost cs = paths.map_values(|p: Seq<char>| leaf_components_of(p));
    let n = vaults.len();
    let mut comps: Vec<Vec<String>> = Vec::new();
    let mut k: usize = 0;
    while k < n
        invariant
            0 <= k <= n == vaults@.len(),
            paths == vaults.deep_view(),
            cs == paths.map_values(|p: Seq<char>| leaf_components_of(p)),
            comps@.len() == k,
            forall|j: int| 0 <= j < k ==> comps@[j].deep_view() == cs[j],
        decreases n - k,
    {
        comps.push(split_path(&vaults[k]));
        k = k + 1;
    }
    let mut out: Vec<String> = Vec::new();
    let mut i: usize = 0;
    while i < n
        invariant
            0 <= i <= n == vaults@.len(),
            paths == vaults.deep_view(),
            cs == paths.map_values(|p: Seq<char>| leaf_components_of(p)),
            comps@.len() == n,
            forall|j: int| 0 <= j < n ==> comps@[j].deep_view() == cs[j],
            out@.len() == i,
            forall|j: int| 0 <= j < i ==> out@[j]@ == display_of(chosen_prefix(cs, j)),
        decreases n - i,
    {
        let li: usize;
        if n == 1 {
            li = comps[i].len();
            proof {
                assert(chosen_prefix(cs, i as int) == cs[i as int]);
                assert(cs[i as int].take(li as int) =~= cs[i as int]);
            }
        } else {
            let mut best: usize = 0;
            let mut j: usize = 0;
            while j < n
                invariant
                    0 <= j <= n,
                    0 <= i < n == comps@.len(),
                    cs.len() == n,
                    forall|m: int| 0 <= m < n ==> comps@[m].deep_view() == cs[m],
                    best == max_div_upto(cs, i as int, j as int),
                    best <= comps@[i as int]@.len(),
                decreases n - j,
            {
                if j != i {
                    let d = divergence_len(&comps[i], &comps[j]);
                    proof {
                        lemma_div_len_le(cs[i as int], cs[j as int]);
                    }
                    if d > best {
                        best = d;
                    }
                }
                j = j + 1;
            }
            li = best;
        }
        proof {
            assert(li as int <= cs[i as int].len());
            assert(cs[i as int].take(li as int) == chosen_prefix(cs, i as int));
        }
        let name = join_rootward(&comps[i], li);
        proof {
            assert(comps@[i as int].deep_view().take(li as int) == cs[i as int].take(li as int));
        }
        out.push(name);
        i = i + 1;
    }
    proof {
        assert(out.deep_view() =~= resolve_spec(vaults.deep_view()));
    }
    out
}

/// A component that carries text of its own: nonempty and free of the
/// separator. Every component but a leading root or current-directory one is
/// of this kind.
pub open spec fn plain_component(c: Seq<char>) -> bool {
    c.len() > 0 && forall|k: int| 0 <= k < c.len() ==> c[k] != '/'
}

/// Every component of the sequence is plain.
pub open spec fn plain_components(c: Seq<Seq<char>>) -> bool {
    forall|k: int| 0 <= k < c.len() ==> plain_component(#[trigger] c[k])
}

/// Two component sequences properly diverge when some shared position holds
/// different components; neither is then a prefix of the other.
pub open spec fn properly_diverges(a: Seq<Seq<char>>, b: Seq<Seq<char>>) -> bool {
    exists|k: int| 0 <= k < a.len() && k < b.len() && a[k] != b[k]
}

/// When two sequences properly diverge, their divergence prefix is nonempty
/// and ends on the first position where they differ.
pub proof fn lemma_div_len_diff_at<T>(a: Seq<T>, b: Seq<T>)
    requires
        exists|k: int| 0 <= k < a.len() && k < b.len() && a[k] != b[k],
    ensures
        div_len(a, b) >= 1,
        a[div_len(a, b) - 1] != b[div_len(a, b) - 1],
    decreases a.len(),
{
    let k0 = choose|k: int| 0 <= k < a.len() && k < b.len() && a[k] != b[k];
    if a[0] != b[0] {
    } else {
        assert(k0 >= 1);
        assert(a.drop_first()[k0 - 1] != b.drop_first()[k0 - 1]);
        lemma_div_len_diff_at(a.drop_first(), b.drop_first());
        lemma_div_len_le(a.drop_first(), b.drop_first());
        let d = div_len(a.drop_first(), b.drop_first()) as int;
        assert(1 <= d <= a.drop_first().len());
        assert(a[d] == a.drop_first()[d - 1]);
        assert(b[d] == b.drop_first()[d - 1]);
    }
}

/// The head of a joined plain sequence: the first component sits in front,
/// separator-free, and is followed by a separator exactly when more
/// components follow.
pub proof fn lemma_join_head(w: Seq<Seq<char>>)
    requires
        plain_components(w),
        w.len() >= 1,
    ensures
        join_slash(w).len() >= w[0].len(),
        join_slash(w).take(w[0].len() as int) == w[0],
        forall|k: int| 0 <= k < w[0].len() ==> join_slash(w)[k] != '/',
        w.len() == 1 ==> join_slash(w).len() == w[0].len(),
        w.len() > 1 ==> join_slash(w).len() > w[0].len() && join_slash(w)[w[0].len() as int]
            == '/',
{
    assert(plain_component(w[0]));
    if w.len() == 1 {
        assert(join_slash(w) == w[0]);
        assert(join_slash(w).take(w[0].len() as int) =~= w[0]);
    } else {
        assert(join_slash(w) == w[0] + seq!['/'] + join_slash(w.drop_first()));
        assert(join_slash(w).take(w[0].len() as int) =~= w[0]);
    }
}

/// Joining with the separator is injective over plain component sequences.
pub proof fn lemma_join_slash_injective(u: Seq<Seq<char>>, v: Seq<Seq<char>>)
    requires
        plain_components(u),
        plain_components(v),
        join_slash(u) == join_slash(v),
    ensures
        u == v,
    decreases u.len(),
{
    if u.len() == 0 && v.len() == 0 {
        assert(u =~= v);
    } else if u.len() == 0 {
        lemma_join_head(v);
        assert(plain_component(v[0]));
        assert(join_slash(v).len() >= 1);
    } else if v.len() == 0 {
        lemma_join_head(u);
        assert(plain_component(u[0]));
        assert(join_slash(u).len() >= 1);
    } else {
        lemma_join_head(u);
        lemma_join_head(v);
        let a0 = u[0].len() as int;
        let b0 = v[0].len() as int;
        if a0 < b0 {
            assert(join_slash(v)[a0] != '/');
            if u.len() == 1 {
                assert(join_slash(u).len() < join_slash(v).len());
            } else {
                assert(join_slash(u)[a0] == '/');
            }
            assert(false);
        }
        if b0 < a0 {
            assert(join_slash(u)[b0] != '/');
            if v.len() == 1 {
                assert(join_slash(v).len() < join_slash(u).len());
            } else {
                assert(join_slash(v)[b0] == '/');
            }
            assert(false);
        }
        assert(a0 == b0);
        assert(u[0] == join_slash(u).take(a0));
        assert(v[0] == join_slash(v).take(b0));
        assert(u[0] == v[0]);
        if u.len() == 1 && v.len() == 1 {
            assert(u =~= v);
        } else if u.len() == 1 {
            assert(join_slash(v).len() > b0);
            assert(join_slash(u).len() == a0);
            assert(false);
        } else if v.len() == 1 {
            assert(join_slash(u).len() > a0);
            assert(join_slash(v).len() == b0);
            assert(false);
        } else {
            assert(join_slash(u) == u[0] + seq!['/'] + join_slash(u.drop_first()));
            assert(join_slash(v) == v[0] + seq!['/'] + join_slash(v.drop_first()));
            assert(join_slash(u.drop_first()) =~= join_slash(v.drop_first())) by {
                let t1 = join_slash(u.drop_first());
                let t2 = join_slash(v.drop_first());
                assert(join_slash(u).len() == a0 + 1 + t1.len());
                assert(join_slash(v).len() == a0 + 1 + t2.len());
                assert forall|m: int| 0 <= m < t1.len() implies t1[m] == t2[m] by {
                    assert(t1[m] == join_slash(u)[a0 + 1 + m]);
                    assert(t2[m] == join_slash(v)[a0 + 1 + m]);
                }
            }
            assert(plain_components(u.drop_first())) by {
                assert forall|k: int|
                    0 <= k < u.drop_first().len() implies plain_component(
                    #[trigger] u.drop_first()[k]) by {
                    assert(u.drop_first()[k] == u[k + 1]);
                }
            }
            assert(plain_components(v.drop_first())) by {
                assert forall|k: int|
                    0 <= k < v.drop_first().len() implies plain_component(
                    #[trigger] v.drop_first()[k]) by {
                    assert(v.drop_first()[k] == v[k + 1]);
                }
            }
            lemma_join_slash_injective(u.drop_first(), v.drop_first());
            assert(u.len() == v.len());
            assert forall|m: int| 0 <= m < u.len() implies u[m] == v[m] by {
                if m > 0 {
                    assert(u[m] == u.drop_first()[m - 1]);
                    assert(v[m] == v.drop_first()[m - 1]);
                }
            }
            assert(u =~= v);
        }
    }
}

/// The shape of a component sequence in root-to-leaf order as the splitter
/// produces it: every component is plain, except that the front one may be
/// the bare root separator.
pub open spec fn path_shaped(u: Seq<Seq<char>>) -> bool {
    &&& forall|k: int| 1 <= k < u.len() ==> plain_component(#[trigger] u[k])
    &&& u.len() > 0 ==> (plain_component(u[0]) || u[0] == seq!['/'])
}

/// Splitting any path string yields components of that shape.
pub proof fn lemma_components_shape(s: Seq<char>)
    ensures
        path_shaped(components_of(s)),
{
    let pred = |c: Seq<char>| c.len() > 0 && c != seq!['.'];
    let raw = raw_segments(s);
    let segs = raw.filter(pred);
    lemma_raw_segments_slash_free(s);
    lemma_raw_segments_nonempty(s);
    assert forall|k: int| 0 <= k < segs.len() implies plain_component(#[trigger] segs[k]) by {
        raw.lemma_filter_pred(pred, k);
        assert(segs.contains(segs[k]));
        raw.lemma_filter_contains_rev(pred, segs[k]);
        let w = choose|w: int| 0 <= w < raw.len() && raw[w] == segs[k];
        assert forall|c: int| 0 <= c < segs[k].len() implies segs[k][c] != '/' by {
            assert(raw[w][c] != '/');
        }
    }
    if s.len() > 0 && s[0] == '/' {
        let comps = seq![seq!['/']] + segs;
        assert(components_of(s) == comps);
        assert forall|k: int| 1 <= k < comps.len() implies plain_component(#[trigger] comps[k]) by {
            assert(comps[k] == segs[k - 1]);
        }
        assert(comps[0] == seq!['/']);
    } else if raw[0] == seq!['.'] {
        let comps = seq![seq!['.']] + segs;
        assert(components_of(s) == comps);
        assert forall|k: int| 1 <= k < comps.len() implies plain_component(#[trigger] comps[k]) by {
            assert(comps[k] == segs[k - 1]);
        }
        assert(plain_component(seq!['.'])) by {
            assert(seq!['.'].len() == 1);
            assert(seq!['.'][0] == '.');
        }
    } else {
        assert(components_of(s) == segs);
    }
}

/// A nonempty plain sequence joins to a string that starts with the first
/// component's first character and is at least one character long.
proof fn lemma_join_plain_head(w: Seq<Seq<char>>)
    requires
        plain_components(w),
        w.len() >= 1,
    ensures
        join_slash(w).len() >= 1,
        join_slash(w)[0] == w[0][0],
        join_slash(w)[0] != '/',
{
    assert(plain_component(w[0]));
    if w.len() > 1 {
        assert(join_slash(w) == w[0] + seq!['/'] + join_slash(w.drop_first()));
    }
}

/// The display join is injective over component sequences of the splitter's
/// shape: plain throughout, but for a possible root in front.
pub proof fn lemma_join_display_injective(u: Seq<Seq<char>>, v: Seq<Seq<char>>)
    requires
        path_shaped(u),
        path_shaped(v),
        join_display(u) == join_display(v),
    ensures
        u == v,
{
    let ur = u.len() >= 2 && u[0] == seq!['/'];
    let vr = v.len() >= 2 && v[0] == seq!['/'];
    if ur {
        assert(plain_components(u.drop_first())) by {
            assert forall|k: int|
                0 <= k < u.drop_first().len() implies plain_component(
                #[trigger] u.drop_first()[k]) by {
                assert(u.drop_first()[k] == u[k + 1]);
            }
        }
    }
    if vr {
        assert(plain_components(v.drop_first())) by {
            assert forall|k: int|
                0 <= k < v.drop_first().len() implies plain_component(
                #[trigger] v.drop_first()[k]) by {
                assert(v.drop_first()[k] == v[k + 1]);
            }
        }
    }
    if !ur && !(u.len() == 1 && u[0] == seq!['/']) {
        assert(plain_components(u)) by {
            assert forall|k: int| 0 <= k < u.len() implies plain_component(#[trigger] u[k]) by {}
        }
    }
    if !vr && !(v.len() == 1 && v[0] == seq!['/']) {
        assert(plain_components(v)) by {
            assert forall|k: int| 0 <= k < v.len() implies plain_component(#[trigger] v[k]) by {}
        }
    }
    if ur && vr {
        let ju = join_slash(u.drop_first());
        let jv = join_slash(v.drop_first());
        assert(join_display(u) == seq!['/'] + ju);
        assert(join_display(v) == seq!['/'] + jv);
        assert(ju =~= jv) by {
            assert(join_display(u).len() == 1 + ju.len());
            assert(join_display(v).len() == 1 + jv.len());
            assert forall|m: int| 0 <= m < ju.len() implies ju[m] == jv[m] by {
                assert(ju[m] == join_display(u)[1 + m]);
                assert(jv[m] == join_display(v)[1 + m]);
            }
        }
        lemma_join_slash_injective(u.drop_first(), v.drop_first());
        assert(u.len() == v.len());
        assert forall|m: int| 0 <= m < u.len() implies u[m] == v[m] by {
            if m > 0 {
                assert(u[m] == u.drop_first()[m - 1]);
                assert(v[m] == v.drop_first()[m - 1]);
            }
        }
        assert(u =~= v);
    } else if ur && !vr {
        lemma_join_plain_head(u.drop_first());
        assert(join_display(u).len() >= 2);
        assert(join_display(u)[0] == '/');
        if v.len() == 0 {
            assert(join_display(v).len() == 0);
        } else if v.len() == 1 && v[0] == seq!['/'] {
            assert(join_display(v) == v[0]);
            assert(join_display(v).len() == 1);
        } else {
            lemma_join_plain_head(v);
            assert(join_display(v)[0] != '/');
        }
        assert(false);
    } else if !ur && vr {
        lemma_join_plain_head(v.drop_first());
        assert(join_display(v).len() >= 2);
        assert(join_display(v)[0] == '/');
        if u.len() == 0 {
            assert(join_display(u).len() == 0);
        } else if u.len() == 1 && u[0] == seq!['/'] {
            assert(join_display(u) == u[0]);
            assert(join_display(u).len() == 1);
        } else {
            lemma_join_plain_head(u);
            assert(join_display(u)[0] != '/');
        }
        assert(false);
    } else {
        if u.len() == 1 && u[0] == seq!['/'] {
            if v.len() == 1 && v[0] == seq!['/'] {
                assert(u =~= v);
            } else if v.len() == 0 {
                assert(join_display(u) == u[0]);
                assert(join_display(v).len() == 0);
                assert(false);
            } else {
                lemma_join_plain_head(v);
                assert(join_display(u) == u[0]);
                assert(join_display(u)[0] == '/');
                assert(join_display(v)[0] != '/');
                assert(false);
            }
        } else if v.len() == 1 && v[0] == seq!['/'] {
            if u.len() == 0 {
                assert(join_display(v) == v[0]);
                assert(join_display(u).len() == 0);
                assert(false);
            } else {
                lemma_join_plain_head(u);
                assert(join_display(v) == v[0]);
                assert(join_display(v)[0] == '/');
                assert(join_display(u)[0] != '/');
                assert(false);
            }
        } else {
            lemma_join_slash_injective(u, v);
        }
    }
}

/// The component prefixes chosen for two properly diverging entries always
/// differ: each one runs at least up to the first position where the two
/// entries disagree.
pub proof fn lemma_chosen_distinct(cs: Seq<Seq<Seq<char>>>, i: int, j: int)
    requires
        cs.len() >= 2,
        0 <= i < cs.len(),
        0 <= j < cs.len(),
        i != j,
        properly_diverges(cs[i], cs[j]),
    ensures
        chosen_prefix(cs, i) != chosen_prefix(cs, j),
{
    let n = cs.len() as int;
    let d = div_len(cs[i], cs[j]) as int;
    lemma_div_len_diff_at(cs[i], cs[j]);
    lemma_div_len_le(cs[i], cs[j]);
    lemma_div_len_sym(cs[i], cs[j]);
    let li = max_div_upto(cs, i, n) as int;
    let lj = max_div_upto(cs, j, n) as int;
    lemma_max_div_ge(cs, i, n, j);
    lemma_max_div_ge(cs, j, n, i);
    lemma_max_div_le(cs, i, n);
    lemma_max_div_le(cs, j, n);
    assert(li >= d);
    assert(lj >= d);
    assert(chosen_prefix(cs, i).len() == li);
    assert(chosen_prefix(cs, j).len() == lj);
    if li == lj {
        assert(chosen_prefix(cs, i)[d - 1] == cs[i][d - 1]);
        assert(chosen_prefix(cs, j)[d - 1] == cs[j][d - 1]);
    }
}

/// The reversed chosen prefix of an entry keeps the splitter's shape: its
/// components are plain throughout, but for a possible root in front.
proof fn lemma_chosen_reverse_shape(paths: Seq<Seq<char>>, i: int)
    requires
        0 <= i < paths.len(),
    ensures
        path_shaped(chosen_prefix(paths.map_values(|p: Seq<char>| leaf_components_of(p)), i)
            .reverse()),
{
    let cs = paths.map_values(|p: Seq<char>| leaf_components_of(p));
    assert(cs[i] == leaf_components_of(paths[i]));
    lemma_components_shape(paths[i]);
    let full = components_of(paths[i]);
    let n = full.len() as int;
    lemma_max_div_le(cs, i, cs.len() as int);
    let ci = chosen_prefix(cs, i);
    let l = ci.len() as int;
    assert(l <= n);
    assert forall|k: int| 0 <= k < l implies ci.reverse()[k] == full[n - l + k] by {
        assert(ci.reverse()[k] == ci[l - 1 - k]);
        assert(ci[l - 1 - k] == cs[i][l - 1 - k]);
        assert(cs[i][l - 1 - k] == full.reverse()[l - 1 - k]);
        assert(full.reverse()[l - 1 - k] == full[n - l + k]);
    }
    assert forall|k: int| 1 <= k < l implies plain_component(#[trigger] ci.reverse()[k]) by {
        assert(n - l + k >= 1);
        assert(plain_component(full[n - l + k]));
    }
    if l > 0 {
        assert(ci.reverse()[0] == full[n - l]);
        if n - l >= 1 {
            assert(plain_component(full[n - l]));
        }
    }
}

/// Uniqueness of resolved names: two paths whose leaf-first components
/// properly diverge are never given the same display name. Pairs with equal
/// component sequences, and pairs where one path's components form a
/// leaf-first prefix of the other's, are out of this law's reach: the
/// algorithm leaves such pairs with matching names.
pub proof fn lemma_resolve_unique(paths: Seq<Seq<char>>, i: int, j: int)
    requires
        0 <= i < paths.len(),
        0 <= j < paths.len(),
        i != j,
        properly_diverges(leaf_components_of(paths[i]), leaf_components_of(paths[j])),
    ensures
        resolve_spec(paths)[i] != resolve_spec(paths)[j],
{
    let cs = paths.map_values(|p: Seq<char>| leaf_components_of(p));
    assert(cs[i] == leaf_components_of(paths[i]));
    assert(cs[j] == leaf_components_of(paths[j]));
    lemma_chosen_distinct(cs, i, j);
    let ci = chosen_prefix(cs, i);
    let cj = chosen_prefix(cs, j);
    lemma_chosen_reverse_shape(paths, i);
    lemma_chosen_reverse_shape(paths, j);
    if resolve_spec(paths)[i] == resolve_spec(paths)[j] {
        assert(display_of(ci) == display_of(cj));
        lemma_join_display_injective(ci.reverse(), cj.reverse());
        assert(ci.len() == cj.len());
        assert forall|m: int| 0 <= m < ci.len() implies ci[m] == cj[m] by {
            assert(ci[m] == ci.reverse()[ci.len() - 1 - m]);
            assert(cj[m] == cj.reverse()[cj.len() - 1 - m]);
        }
        assert(ci =~= cj);
        assert(false);
    }
}

/// Joining splits around any inner cut: the part before the cut, one
/// separator, the part after it.
pub proof fn lemma_join_slash_split(u: Seq<Seq<char>>, k: int)
    requires
        0 < k < u.len(),
    ensures
        join_slash(u) == join_slash(u.take(k)) + seq!['/'] + join_slash(u.skip(k)),
    decreases k,
{
    if k == 1 {
        assert(u.take(1) =~= seq![u[0]]);
        assert(join_slash(seq![u[0]]) == u[0]);
        assert(u.skip(1) =~= u.drop_first());
        assert(join_slash(u) == u[0] + seq!['/'] + join_slash(u.drop_first()));
    } else {
        lemma_join_slash_split(u.drop_first(), k - 1);
        assert(u.drop_first().take(k - 1) =~= u.take(k).drop_first());
        assert(u.drop_first().skip(k - 1) =~= u.skip(k));
        assert(join_slash(u) == u[0] + seq!['/'] + join_slash(u.drop_first()));
        assert(join_slash(u.take(k)) == u.take(k)[0] + seq!['/'] + join_slash(
            u.take(k).drop_first())) by {
            assert(u.take(k).len() == k >= 2);
        }
        assert(u.take(k)[0] == u[0]);
    }
}

/// `a` closes `b`: appending `a` to the front part of `b` gives back `b`.
pub open spec fn is_suffix_of(a: Seq<char>, b: Seq<char>) -> bool {
    a.len() <= b.len() && a == b.subrange(b.len() - a.len(), b.len() as int)
}

/// Suffix invariant of resolved names: each display name, read root to leaf,
/// is a suffix of the display string of the path's full component sequence —
/// and so of the path itself whenever the path equals its own rejoined
/// components, as every path the splitter leaves unchanged does.
pub proof fn lemma_resolve_suffix(paths: Seq<Seq<char>>, i: int)
    requires
        0 <= i < paths.len(),
    ensures
        is_suffix_of(resolve_spec(paths)[i], display_of(leaf_components_of(paths[i]))),
        paths[i] == display_of(leaf_components_of(paths[i])) ==> is_suffix_of(
            resolve_spec(paths)[i],
            paths[i],
        ),
{
    let cs = paths.map_values(|p: Seq<char>| leaf_components_of(p));
    assert(cs[i] == leaf_components_of(paths[i]));
    let full = cs[i];
    let ci = chosen_prefix(cs, i);
    lemma_max_div_le(cs, i, cs.len() as int);
    lemma_components_shape(paths[i]);
    let rf = full.reverse();
    assert(rf =~= components_of(paths[i]));
    assert(path_shaped(rf));
    let l = ci.len() as int;
    assert(ci =~= full.take(l));
    let cut = full.len() - l;
    assert(ci.reverse() =~= rf.skip(cut));
    let name = resolve_spec(paths)[i];
    let b = display_of(full);
    assert(name == join_display(rf.skip(cut)));
    if l == full.len() {
        assert(rf.skip(0) =~= rf);
        assert(name == b);
        assert(is_suffix_of(b, b)) by {
            assert(b.subrange(0, b.len() as int) =~= b);
        }
    } else if l == 0 {
        assert(rf.skip(cut) =~= Seq::<Seq<char>>::empty());
        assert(name.len() == 0);
        assert(is_suffix_of(name, b)) by {
            assert(b.subrange(b.len() as int, b.len() as int) =~= name);
        }
    } else {
        assert(0 < cut < rf.len());
        assert(plain_component(rf[cut]));
        assert(rf.skip(cut)[0] == rf[cut]);
        assert(rf.skip(cut)[0] != seq!['/']) by {
            if rf.skip(cut)[0] == seq!['/'] {
                assert(rf[cut][0] == '/');
            }
        }
        assert(name == join_slash(rf.skip(cut)));
        if rf.len() >= 2 && rf[0] == seq!['/'] {
            let t = rf.drop_first();
            assert(b == seq!['/'] + join_slash(t));
            assert(rf.skip(cut) =~= t.skip(cut - 1));
            if cut == 1 {
                assert(t.skip(0) =~= t);
                assert(b == seq!['/'] + name);
            } else {
                lemma_join_slash_split(t, cut - 1);
                assert(b == seq!['/'] + (join_slash(t.take(cut - 1)) + seq!['/'] + name));
            }
            assert(is_suffix_of(name, b)) by {
                assert(b.subrange(b.len() - name.len(), b.len() as int) =~= name);
            }
        } else {
            assert(b == join_slash(rf));
            lemma_join_slash_split(rf, cut);
            assert(b == join_slash(rf.take(cut)) + seq!['/'] + name);
            assert(is_suffix_of(name, b)) by {
                assert(b.subrange(b.len() - name.len(), b.len() as int) =~= name);
            }
        }
    }
}

/// Minimality of resolved names: in a set of at least two paths, when the
/// entry and at least one of its peers have a component at all, cutting the
/// last kept component of the entry's chosen prefix leaves a component
/// sequence that is also a leaf-first prefix of some peer's components — the
/// shortened name no longer tells the entry apart from that peer.
pub proof fn lemma_resolve_minimal(paths: Seq<Seq<char>>, i: int)
    requires
        paths.len() >= 2,
        0 <= i < paths.len(),
        leaf_components_of(paths[i]).len() >= 1,
        exists|k: int|
            0 <= k < paths.len() && k != i && leaf_components_of(#[trigger] paths[k]).len() >= 1,
    ensures
        ({
            let cs = paths.map_values(|p: Seq<char>| leaf_components_of(p));
            exists|j: int|
                0 <= j < paths.len() && j != i && chosen_prefix(cs, i).drop_last() == cs[j].take(
                    chosen_prefix(cs, i).len() - 1)
        }),
{
    let cs = paths.map_values(|p: Seq<char>| leaf_components_of(p));
    let n = cs.len() as int;
    let j0 = choose|k: int|
        0 <= k < paths.len() && k != i && leaf_components_of(#[trigger] paths[k]).len() >= 1;
    assert(cs[i] == leaf_components_of(paths[i]));
    assert(cs[j0] == leaf_components_of(paths[j0]));
    assert(div_len(cs[i], cs[j0]) >= 1) by {
        assert(cs[i].len() >= 1);
        assert(cs[j0].len() >= 1);
    }
    lemma_max_div_ge(cs, i, n, j0);
    let li = max_div_upto(cs, i, n) as int;
    assert(li >= 1);
    lemma_max_div_attained(cs, i, n);
    let j = choose|j: int|
        0 <= j < n && j != i && div_len(cs[i], cs[j]) == max_div_upto(cs, i, n);
    lemma_div_len_prefix_eq(cs[i], cs[j]);
    lemma_div_len_le(cs[i], cs[j]);
    lemma_max_div_le(cs, i, n);
    assert(chosen_prefix(cs, i) == cs[i].take(li));
    assert(chosen_prefix(cs, i).drop_last() =~= cs[i].take(li - 1));
    assert(cs[i].take(li - 1) =~= cs[j].take(li - 1)) by {
        assert forall|k: int| 0 <= k < li - 1 implies cs[i][k] == cs[j][k] by {
            assert(0 <= k < div_len(cs[i], cs[j]) - 1);
        }
    }
    assert(chosen_prefix(cs, i).drop_last() == cs[j].take(chosen_prefix(cs, i).len() - 1));
}

} // verus!
