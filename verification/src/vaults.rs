//! Gathering the known vaults. The paths read out of every registry file are
//! merged into one list without duplicates, in lexicographic order; the
//! locations of the registry files themselves are derived from the settings
//! and the environment values handed in.

use crate::config::Config;
use vstd::prelude::*;
use vstd::string::StrSliceExecFns;
use vstd::string::StringExecFns;

verus! {

/// Strict lexicographic order over character sequences, by scalar value.
pub open spec fn lex_lt(a: Seq<char>, b: Seq<char>) -> bool
    decreases a.len(),
{
    if b.len() == 0 {
        false
    } else if a.len() == 0 {
        true
    } else if a[0] != b[0] {
        (a[0] as u32) < (b[0] as u32)
    } else {
        lex_lt(a.drop_first(), b.drop_first())
    }
}

/// The lexicographic order is transitive.
pub proof fn lemma_lex_lt_trans(a: Seq<char>, b: Seq<char>, c: Seq<char>)
    requires
        lex_lt(a, b),
        lex_lt(b, c),
    ensures
        lex_lt(a, c),
    decreases a.len(),
{
    if b.len() == 0 || c.len() == 0 {
    } else if a.len() == 0 {
    } else {
        if a[0] == b[0] && b[0] == c[0] {
            lemma_lex_lt_trans(a.drop_first(), b.drop_first(), c.drop_first());
        }
    }
}

/// Two sequences neither of which precedes the other are equal.
pub proof fn lemma_lex_lt_connex(a: Seq<char>, b: Seq<char>)
    requires
        !lex_lt(a, b),
        !lex_lt(b, a),
    ensures
        a == b,
    decreases a.len(),
{
    if b.len() == 0 && a.len() == 0 {
        assert(a =~= b);
    } else if b.len() == 0 {
        assert(lex_lt(b, a));
    } else if a.len() == 0 {
        assert(lex_lt(a, b));
    } else {
        let ca = a[0];
        let cb = b[0];
        assert(ca == cb) by {
            if ca != cb {
                assert(!((ca as u32) < (cb as u32)));
                assert(!((cb as u32) < (ca as u32)));
                assert((ca as u32) == (cb as u32));
                vstd::utf8::char_u32_cast(ca, ca as u32);
                vstd::utf8::char_u32_cast(cb, cb as u32);
                assert(false);
            }
        }
        assert(lex_lt(a, b) == lex_lt(a.drop_first(), b.drop_first()));
        assert(lex_lt(b, a) == lex_lt(b.drop_first(), a.drop_first()));
        lemma_lex_lt_connex(a.drop_first(), b.drop_first());
        assert(a.drop_first() == b.drop_first());
        assert(a.drop_first().len() == b.drop_first().len());
        assert(a.len() == b.len());
        assert forall|k: int| 0 <= k < a.len() implies a[k] == b[k] by {
            if k > 0 {
                assert(a[k] == a.drop_first()[k - 1]);
                assert(b[k] == b.drop_first()[k - 1]);
            }
        }
        assert(a =~= b);
    }
}

/// Skipping a shared prefix leaves the order between two sequences as it is.
pub proof fn lemma_lex_lt_skip(a: Seq<char>, b: Seq<char>, i: int)
    requires
        0 <= i <= a.len(),
        i <= b.len(),
        forall|k: int| 0 <= k < i ==> a[k] == b[k],
    ensures
        lex_lt(a, b) == lex_lt(a.skip(i), b.skip(i)),
    decreases i,
{
    if i == 0 {
        assert(a.skip(0) =~= a);
        assert(b.skip(0) =~= b);
    } else {
        assert(a[0] == b[0]);
        assert forall|k: int| 0 <= k < i - 1 implies a.drop_first()[k] == b.drop_first()[k] by {
            assert(a[k + 1] == b[k + 1]);
        }
        lemma_lex_lt_skip(a.drop_first(), b.drop_first(), i - 1);
        assert(a.drop_first().skip(i - 1) =~= a.skip(i));
        assert(b.drop_first().skip(i - 1) =~= b.skip(i));
    }
}

/// Compare two strings in the lexicographic order of their characters.
fn str_lt(a: &String, b: &String) -> (r: bool)
    ensures
        r == lex_lt(a@, b@),
{
    let alen = a.as_str().unicode_len();
    let blen = b.as_str().unicode_len();
    let min = if alen < blen {
        alen
    } else {
        blen
    };
    let mut i: usize = 0;
    while i < min
        invariant
            alen == a@.len(),
            blen == b@.len(),
            min <= alen,
            min <= blen,
            min == if alen <= blen {
                alen
            } else {
                blen
            },
            0 <= i <= min,
            forall|k: int| 0 <= k < i ==> a@[k] == b@[k],
        decreases min - i,
    {
        let ca = a.as_str().get_char(i);
        let cb = b.as_str().get_char(i);
        if ca != cb {
            proof {
                lemma_lex_lt_skip(a@, b@, i as int);
                assert(a@.skip(i as int)[0] == a@[i as int]);
                assert(b@.skip(i as int)[0] == b@[i as int]);
            }
            return (ca as u32) < (cb as u32);
        }
        i = i + 1;
    }
    proof {
        lemma_lex_lt_skip(a@, b@, min as int);
        if alen < blen {
            assert(b@.skip(min as int).len() > 0);
        } else {
            assert(b@.skip(min as int).len() == 0);
        }
    }
    alen < blen
}

/// A list of strings in strictly ascending lexicographic order; such a list
/// holds no duplicates.
pub open spec fn strictly_sorted(v: Seq<Seq<char>>) -> bool {
    forall|i: int, j: int| 0 <= i < j < v.len() ==> lex_lt(#[trigger] v[i], #[trigger] v[j])
}

/// Put one string into a sorted duplicate-free list, keeping it sorted and
/// duplicate-free; a string already present is left alone.
fn insert_unique_sorted(v: &mut Vec<String>, s: String)
    requires
        strictly_sorted(old(v).deep_view()),
    ensures
        strictly_sorted(final(v).deep_view()),
        forall|t: Seq<char>|
            final(v).deep_view().contains(t) <==> (old(v).deep_view().contains(t) || t == s@),
{
    let ghost dv0 = old(v).deep_view();
    let mut pos: usize = 0;
    while pos < v.len() && str_lt(&v[pos], &s)
        invariant
            v.deep_view() == dv0,
            strictly_sorted(dv0),
            0 <= pos <= v@.len(),
            forall|k: int| 0 <= k < pos ==> lex_lt(#[trigger] dv0[k], s@),
        decreases v@.len() - pos,
    {
        pos = pos + 1;
    }
    if pos < v.len() && v[pos] == s {
        proof {
            assert(dv0[pos as int] == s@);
            assert(dv0.contains(s@));
        }
        return ;
    }
    proof {
        if pos < v@.len() {
            if !lex_lt(s@, dv0[pos as int]) {
                lemma_lex_lt_connex(dv0[pos as int], s@);
                assert(false);
            }
            assert(lex_lt(s@, dv0[pos as int]));
        }
    }
    v.insert(pos, s);
    proof {
        let dv1 = v.deep_view();
        assert(dv1 =~= dv0.insert(pos as int, s@));
        assert forall|i: int, j: int| 0 <= i < j < dv1.len() implies lex_lt(
            #[trigger] dv1[i],
            #[trigger] dv1[j],
        ) by {
            if i < pos && j < pos {
                assert(dv1[i] == dv0[i]);
                assert(dv1[j] == dv0[j]);
            } else if i < pos && j == pos {
                assert(dv1[i] == dv0[i]);
            } else if i < pos && j > pos {
                assert(dv1[i] == dv0[i]);
                assert(dv1[j] == dv0[j - 1]);
            } else if i == pos && j > pos {
                assert(dv1[j] == dv0[j - 1]);
                assert(lex_lt(s@, dv0[pos as int]));
                if j - 1 > pos {
                    assert(lex_lt(dv0[pos as int], dv0[j - 1]));
                    lemma_lex_lt_trans(s@, dv0[pos as int], dv0[j - 1]);
                }
            } else {
                assert(dv1[i] == dv0[i - 1]);
                assert(dv1[j] == dv0[j - 1]);
            }
        }
        assert forall|t: Seq<char>|
            dv1.contains(t) <==> (dv0.contains(t) || t == s@) by {
            if dv1.contains(t) {
                let w = choose|w: int| 0 <= w < dv1.len() && dv1[w] == t;
                if w < pos {
                    assert(dv0[w] == t);
                } else if w > pos {
                    assert(dv0[w - 1] == t);
                }
            }
            if dv0.contains(t) {
                let w = choose|w: int| 0 <= w < dv0.len() && dv0[w] == t;
                if w < pos {
                    assert(dv1[w] == t);
                } else {
                    assert(dv1[w + 1] == t);
                }
            }
            if t == s@ {
                assert(dv1[pos as int] == t);
            }
        }
    }
}

/// `t` stands somewhere in the lists: in a list before `li`, or in list `li`
/// itself before entry `e`.
pub open spec fn in_lists_upto(ls: Seq<Seq<Seq<char>>>, li: int, e: int, t: Seq<char>) -> bool {
    exists|i: int, k: int|
        0 <= i < ls.len() && 0 <= k < ls[i].len() && (i < li || (i == li && k < e)) && ls[i][k]
            == t
}

/// Merge the path lists read out of every registry file into one list
/// without duplicates, in ascending lexicographic order: a path stands in
/// the result exactly when some list holds it.
pub fn get_known_vaults(lists: Vec<Vec<String>>) -> (r: Vec<String>)
    ensures
        strictly_sorted(r.deep_view()),
        forall|t: Seq<char>|
            r.deep_view().contains(t) <==> in_lists_upto(
                lists.deep_view(),
                lists@.len() as int,
                0,
                t,
            ),
{
    let ghost ls = lists.deep_view();
    let mut r: Vec<String> = Vec::new();
    let mut li: usize = 0;
    while li < lists.len()
        invariant
            ls == lists.deep_view(),
            ls.len() == lists@.len(),
            0 <= li <= lists@.len(),
            strictly_sorted(r.deep_view()),
            forall|t: Seq<char>| r.deep_view().contains(t) <==> in_lists_upto(ls, li as int, 0, t),
        decreases lists@.len() - li,
    {
        let mut e: usize = 0;
        while e < lists[li].len()
            invariant
                ls == lists.deep_view(),
                ls.len() == lists@.len(),
                0 <= li < lists@.len(),
                0 <= e <= lists@[li as int]@.len(),
                ls[li as int].len() == lists@[li as int]@.len(),
                strictly_sorted(r.deep_view()),
                forall|t: Seq<char>|
                    r.deep_view().contains(t) <==> in_lists_upto(ls, li as int, e as int, t),
            decreases lists@[li as int]@.len() - e,
        {
            let s = lists[li][e].clone();
            proof {
                assert(s@ == ls[li as int][e as int]);
            }
            insert_unique_sorted(&mut r, s);
            proof {
                assert forall|t: Seq<char>|
                    r.deep_view().contains(t) <==> in_lists_upto(ls, li as int, e as int + 1, t) by {
                    if r.deep_view().contains(t) {
                        if t == ls[li as int][e as int] {
                            assert(in_lists_upto(ls, li as int, e as int + 1, t));
                        } else {
                            assert(in_lists_upto(ls, li as int, e as int, t));
                            let (i, k) = choose|i: int, k: int|
                                0 <= i < ls.len() && 0 <= k < ls[i].len() && (i < li as int || (i
                                    == li as int && k < e as int)) && ls[i][k] == t;
                            assert(in_lists_upto(ls, li as int, e as int + 1, t));
                        }
                    }
                    if in_lists_upto(ls, li as int, e as int + 1, t) {
                        let (i, k) = choose|i: int, k: int|
                            0 <= i < ls.len() && 0 <= k < ls[i].len() && (i < li as int || (i
                                == li as int && k < e as int + 1)) && ls[i][k] == t;
                        if i == li as int && k == e as int {
                            assert(t == s@);
                        } else {
                            assert(in_lists_upto(ls, li as int, e as int, t));
                        }
                    }
                }
            }
            e = e + 1;
        }
        proof {
            assert forall|t: Seq<char>|
                in_lists_upto(ls, li as int, lists@[li as int]@.len() as int, t) <==> in_lists_upto(
                ls,
                li as int + 1,
                0,
                t,
            ) by {}
        }
        li = li + 1;
    }
    r
}

/// The value the fallback rule turns the environment pair into: the
/// dedicated value when set, else the well-known directory under a nonempty
/// home, else empty.
pub open spec fn xdg_or_fallback(home: Seq<char>, xdg_env: Option<Seq<char>>) -> Seq<char> {
    match xdg_env {
        Some(x) => x,
        None => if home.len() > 0 {
            home + "/.config"@
        } else {
            Seq::empty()
        },
    }
}

/// The registry files that the settings ask to read, in order: the sandboxed
/// application's registry, the native registry, then every additional file;
/// nothing at all when neither a home nor a configuration directory is
/// known.
pub open spec fn source_paths_spec(
    flatpak: bool,
    native: bool,
    additional: Seq<Seq<char>>,
    home: Seq<char>,
    xdg_env: Option<Seq<char>>,
) -> Seq<Seq<char>> {
    let xdg = xdg_or_fallback(home, xdg_env);
    if home.len() == 0 && xdg.len() == 0 {
        Seq::empty()
    } else {
        (if flatpak {
            seq![home + "/.var/app/md.obsidian.Obsidian/config/obsidian/obsidian.json"@]
        } else {
            Seq::<Seq<char>>::empty()
        }) + (if native {
            seq![xdg + "/obsidian/obsidian.json"@]
        } else {
            Seq::<Seq<char>>::empty()
        }) + additional
    }
}

/// The view of an optional environment value.
pub open spec fn opt_str_view(o: Option<String>) -> Option<Seq<char>> {
    match o {
        Some(s) => Some(s@),
        None => None,
    }
}

/// Turn the settings and the environment values into the list of registry
/// files to read.
pub fn build_sources(conf: &Config, home: String, xdg_config_home: Option<String>) -> (r: Vec<
    String,
>)
    ensures
        r.deep_view() == source_paths_spec(
            conf.source.flatpak,
            conf.source.native,
            conf.source.additional_sources.deep_view(),
            home@,
            opt_str_view(xdg_config_home),
        ),
{
    let ghost spec_out = source_paths_spec(
        conf.source.flatpak,
        conf.source.native,
        conf.source.additional_sources.deep_view(),
        home@,
        opt_str_view(xdg_config_home),
    );
    let xdg: String = match xdg_config_home {
        Some(x) => x,
        None => if !home.as_str().is_empty() {
            home.clone().concat("/.config")
        } else {
            String::new()
        },
    };
    proof {
        assert(xdg@ == xdg_or_fallback(home@, opt_str_view(xdg_config_home)));
    }
    let mut r: Vec<String> = Vec::new();
    if home.as_str().is_empty() && xdg.as_str().is_empty() {
        proof {
            assert(r.deep_view() =~= spec_out);
        }
        return r;
    }
    if conf.source.flatpak {
        r.push(home.clone().concat("/.var/app/md.obsidian.Obsidian/config/obsidian/obsidian.json"));
    }
    if conf.source.native {
        r.push(xdg.concat("/obsidian/obsidian.json"));
    }
    let ghost base = r.deep_view();
    let ghost blen = r@.len() as int;
    let mut k: usize = 0;
    while k < conf.source.additional_sources.len()
        invariant
            base == (if conf.source.flatpak {
                seq![home@ + "/.var/app/md.obsidian.Obsidian/config/obsidian/obsidian.json"@]
            } else {
                Seq::<Seq<char>>::empty()
            }) + (if conf.source.native {
                seq![
                    xdg_or_fallback(home@, opt_str_view(xdg_config_home))
                        + "/obsidian/obsidian.json"@,
                ]
            } else {
                Seq::<Seq<char>>::empty()
            }),
            blen == base.len(),
            0 <= k <= conf.source.additional_sources@.len(),
            r@.len() == blen + k,
            forall|m: int| 0 <= m < blen ==> r.deep_view()[m] == base[m],
            forall|m: int|
                0 <= m < k ==> r.deep_view()[blen + m]
                    == conf.source.additional_sources.deep_view()[m],
        decreases conf.source.additional_sources@.len() - k,
    {
        r.push(conf.source.additional_sources[k].clone());
        k = k + 1;
    }
    proof {
        assert(spec_out == base + conf.source.additional_sources.deep_view());
        assert(r.deep_view() =~= spec_out);
    }
    r
}

} // verus!
