//! The launcher side of the tool: the labels shown for the vaults, the
//! line protocol that carries them, and the address handed to the system
//! opener when an entry has been picked. Printing the lines and invoking the
//! opener are I/O and stay outside the library.

use crate::config::Config;
use crate::config::DisplayName;
use crate::display_name::leaf_components_of;
use crate::display_name::make_unique;
use crate::display_name::resolve_spec;
use crate::display_name::split_path;
use vstd::prelude::*;
use vstd::string::StrSliceExecFns;
use vstd::string::StringExecFns;

verus! {

/// What the form-urlencoding of a key/value pair returns; a function of the
/// two strings alone.
pub uninterp spec fn form_pair_of(key: Seq<char>, value: Seq<char>) -> Seq<char>;

/// Relies on url::form_urlencoded::Serializer: `new` over an empty string,
/// one `append_pair` and `finish` serialize the single pair `key=value` in
/// application/x-www-form-urlencoded syntax, a deterministic function of the
/// two strings alone.
#[verifier::external_body]
fn encode_query_pair(key: &str, value: &str) -> (r: String)
    ensures
        r@ == form_pair_of(key@, value@),
{
    url::form_urlencoded::Serializer::new(String::new()).append_pair(key, value).finish()
}

/// Each plus sign replaced by the escape of a space; every other character
/// kept as it is.
pub open spec fn plus_expand(s: Seq<char>) -> Seq<char>
    decreases s.len(),
{
    if s.len() == 0 {
        Seq::empty()
    } else if s[0] == '+' {
        seq!['%', '2', '0'] + plus_expand(s.drop_first())
    } else {
        seq![s[0]] + plus_expand(s.drop_first())
    }
}

/// The replacement works piece by piece: expanding a concatenation expands
/// both parts in place.
pub proof fn lemma_plus_expand_concat(u: Seq<char>, v: Seq<char>)
    ensures
        plus_expand(u + v) == plus_expand(u) + plus_expand(v),
    decreases u.len(),
{
    if u.len() == 0 {
        assert(u + v =~= v);
        assert(plus_expand(u) + plus_expand(v) =~= plus_expand(v));
    } else {
        lemma_plus_expand_concat(u.drop_first(), v);
        assert((u + v).drop_first() =~= u.drop_first() + v);
        assert((u + v)[0] == u[0]);
        if u[0] == '+' {
            assert(plus_expand(u + v) == seq!['%', '2', '0'] + (plus_expand(u.drop_first())
                + plus_expand(v)));
            assert(plus_expand(u) + plus_expand(v) =~= seq!['%', '2', '0'] + (plus_expand(
                u.drop_first(),
            ) + plus_expand(v)));
        } else {
            assert(plus_expand(u + v) == seq![u[0]] + (plus_expand(u.drop_first()) + plus_expand(
                v,
            )));
            assert(plus_expand(u) + plus_expand(v) =~= seq![u[0]] + (plus_expand(u.drop_first())
                + plus_expand(v)));
        }
    }
}

/// Rewrite every plus sign of the string into the escape of a space.
fn replace_plus(s: &String) -> (r: String)
    ensures
        r@ == plus_expand(s@),
{
    let len = s.as_str().unicode_len();
    let mut r = String::new();
    let mut i: usize = 0;
    while i < len
        invariant
            len == s@.len(),
            0 <= i <= len,
            r@ == plus_expand(s@.take(i as int)),
        decreases len - i,
    {
        let c = s.as_str().get_char(i);
        proof {
            lemma_plus_expand_concat(s@.take(i as int), seq![s@[i as int]]);
            assert(s@.take(i as int) + seq![s@[i as int]] =~= s@.take(i as int + 1));
            let one = seq![s@[i as int]];
            assert(one.len() == 1);
            assert(one[0] == s@[i as int]);
            assert(one.drop_first() =~= Seq::<char>::empty());
            assert(plus_expand(Seq::<char>::empty()) =~= Seq::<char>::empty());
            if s@[i as int] == '+' {
                assert(plus_expand(one) == seq!['%', '2', '0'] + plus_expand(one.drop_first()));
                assert(plus_expand(one) =~= seq!['%', '2', '0']);
            } else {
                assert(plus_expand(one) == seq![one[0]] + plus_expand(one.drop_first()));
                assert(plus_expand(one) =~= seq![s@[i as int]]);
            }
        }
        if c == '+' {
            proof {
                reveal_strlit("%20");
                assert("%20"@ =~= seq!['%', '2', '0']);
            }
            r.append("%20");
        } else {
            let piece = s.as_str().substring_char(i, i + 1);
            proof {
                assert(piece@ =~= seq![s@[i as int]]);
            }
            r.append(piece);
        }
        i = i + 1;
    }
    proof {
        assert(s@.take(len as int) =~= s@);
    }
    r
}

/// The address that asks the note application to open the vault recorded in
/// a picked entry: the fixed scheme and action, then the vault's path as a
/// form-encoded query with every plus sign spelled as an escaped space.
pub fn build_open_uri(rofi_info: &String) -> (r: String)
    ensures
        r@ == "obsidian://open?"@ + plus_expand(form_pair_of("path"@, rofi_info@)),
{
    let q = encode_query_pair("path", rofi_info.as_str());
    let q2 = replace_plus(&q);
    String::from_str("obsidian://open?").concat(q2.as_str())
}

/// The index of the last dot of the name below `n` that is not its leading
/// character, or zero when no such dot exists.
pub open spec fn last_dot_from(s: Seq<char>, n: int) -> int
    decreases n,
{
    if n <= 1 {
        0
    } else if s[n - 1] == '.' {
        n - 1
    } else {
        last_dot_from(s, n - 1)
    }
}

/// The stem of a leaf name: everything before its last dot, or the whole
/// name when its only dot is the leading character or it has none.
pub open spec fn stem_of(s: Seq<char>) -> Seq<char> {
    let d = last_dot_from(s, s.len() as int);
    if d == 0 {
        s
    } else {
        s.take(d)
    }
}

/// The label of a vault under the vault-name style: the stem of the path's
/// leaf component, or the whole path when its last component is a root,
/// current-directory or parent-directory one, or when it has none at all.
pub open spec fn vault_label_of(p: Seq<char>) -> Seq<char> {
    let lc = leaf_components_of(p);
    if lc.len() == 0 {
        p
    } else if lc[0] == seq!['/'] || lc[0] == seq!['.'] || lc[0] == seq!['.', '.'] {
        p
    } else {
        stem_of(lc[0])
    }
}

/// Compute the vault-name label of one vault path.
pub fn vault_label(vault: &String) -> (r: String)
    ensures
        r@ == vault_label_of(vault@),
{
    let comps = split_path(vault);
    if comps.len() == 0 {
        return vault.clone();
    }
    let leaf: &String = &comps[0];
    proof {
        assert(leaf@ == comps.deep_view()[0]);
    }
    let llen = leaf.as_str().unicode_len();
    let is_slash = llen == 1 && leaf.as_str().get_char(0) == '/';
    let is_dot = llen == 1 && leaf.as_str().get_char(0) == '.';
    let is_dotdot = llen == 2 && leaf.as_str().get_char(0) == '.' && leaf.as_str().get_char(1)
        == '.';
    proof {
        if is_slash {
            assert(leaf@ =~= seq!['/']);
        } else {
            assert(leaf@ != seq!['/']) by {
                if leaf@ == seq!['/'] {
                    assert(leaf@.len() == 1);
                    assert(leaf@[0] == '/');
                }
            }
        }
        if is_dot {
            assert(leaf@ =~= seq!['.']);
        } else {
            assert(leaf@ != seq!['.']) by {
                if leaf@ == seq!['.'] {
                    assert(leaf@.len() == 1);
                    assert(leaf@[0] == '.');
                }
            }
        }
        if is_dotdot {
            assert(leaf@ =~= seq!['.', '.']);
        } else {
            assert(leaf@ != seq!['.', '.']) by {
                if leaf@ == seq!['.', '.'] {
                    assert(leaf@.len() == 2);
                    assert(leaf@[0] == '.');
                    assert(leaf@[1] == '.');
                }
            }
        }
    }
    if is_slash || is_dot || is_dotdot {
        return vault.clone();
    }
    let mut k: usize = llen;
    let mut d: usize = 0;
    while k > 1 && d == 0
        invariant
            llen == leaf@.len(),
            0 <= k <= llen,
            d == 0 ==> last_dot_from(leaf@, llen as int) == last_dot_from(leaf@, k as int),
            d != 0 ==> 1 <= d < llen && d == last_dot_from(leaf@, llen as int),
        decreases k,
    {
        let c = leaf.as_str().get_char(k - 1);
        if c == '.' {
            d = k - 1;
        }
        k = k - 1;
    }
    if d == 0 {
        proof {
            assert(last_dot_from(leaf@, llen as int) == 0);
            assert(stem_of(leaf@) == leaf@);
        }
        leaf.clone()
    } else {
        let piece = leaf.as_str().substring_char(0, d);
        proof {
            assert(piece@ =~= leaf@.take(d as int));
        }
        String::from_str(piece)
    }
}

/// One line of the launcher protocol: the visible label, then the icon and
/// the vault's full path as metadata fields behind the separator characters.
pub open spec fn menu_line_of(label: Seq<char>, icon: Seq<char>, vault: Seq<char>) -> Seq<char> {
    label + "\u{0}icon\u{1f}"@ + icon + "\u{1f}info\u{1f}"@ + vault
}

/// Build one protocol line from a label, an icon and the vault's path.
pub fn build_menu_line(label: &String, icon: &String, vault: &String) -> (r: String)
    ensures
        r@ == menu_line_of(label@, icon@, vault@),
{
    let mut r = String::new();
    r.append(label.as_str());
    r.append("\u{0}icon\u{1f}");
    r.append(icon.as_str());
    r.append("\u{1f}info\u{1f}");
    r.append(vault.as_str());
    proof {
        assert(r@ =~= menu_line_of(label@, icon@, vault@));
    }
    r
}

/// The label a vault receives under the given style, within the given set
/// of paths.
pub open spec fn style_label(paths: Seq<Seq<char>>, style: DisplayName, i: int) -> Seq<char> {
    match style {
        DisplayName::VaultName => vault_label_of(paths[i]),
        DisplayName::Path => paths[i],
        DisplayName::Unique => resolve_spec(paths)[i],
    }
}

/// The full menu: one protocol line per vault, in input order, each carrying
/// the style's label, the icon, and the vault's recorded path.
pub fn render_lines(vaults: &Vec<String>, style: &DisplayName, icon: &String) -> (r: Vec<String>)
    ensures
        r@.len() == vaults@.len(),
        forall|i: int|
            0 <= i < vaults@.len() ==> r.deep_view()[i] == menu_line_of(
                style_label(vaults.deep_view(), *style, i),
                icon@,
                vaults.deep_view()[i],
            ),
{
    let n = vaults.len();
    let mut labels: Vec<String> = Vec::new();
    match style {
        DisplayName::Unique => {
            let mut copy: Vec<String> = Vec::new();
            let mut k: usize = 0;
            while k < n
                invariant
                    0 <= k <= n == vaults@.len(),
                    copy@.len() == k,
                    forall|j: int| 0 <= j < k ==> copy.deep_view()[j] == vaults.deep_view()[j],
                decreases n - k,
            {
                copy.push(vaults[k].clone());
                k = k + 1;
            }
            proof {
                assert(copy.deep_view() =~= vaults.deep_view());
            }
            labels = make_unique(copy);
        },
        DisplayName::VaultName => {
            let mut k: usize = 0;
            while k < n
                invariant
                    0 <= k <= n == vaults@.len(),
                    labels@.len() == k,
                    forall|j: int|
                        0 <= j < k ==> labels.deep_view()[j] == vault_label_of(
                            vaults.deep_view()[j],
                        ),
                decreases n - k,
            {
                let lab = vault_label(&vaults[k]);
                proof {
                    assert(vaults@[k as int]@ == vaults.deep_view()[k as int]);
                }
                let ghost pre = labels.deep_view();
                labels.push(lab);
                proof {
                    assert(labels.deep_view() =~= pre.push(lab@));
                }
                k = k + 1;
            }
        },
        DisplayName::Path => {
            let mut k: usize = 0;
            while k < n
                invariant
                    0 <= k <= n == vaults@.len(),
                    labels@.len() == k,
                    forall|j: int| 0 <= j < k ==> labels.deep_view()[j] == vaults.deep_view()[j],
                decreases n - k,
            {
                labels.push(vaults[k].clone());
                k = k + 1;
            }
        },
    }
    let mut r: Vec<String> = Vec::new();
    let mut i: usize = 0;
    while i < n
        invariant
            0 <= i <= n == vaults@.len(),
            labels@.len() == n,
            forall|j: int|
                0 <= j < n ==> labels.deep_view()[j] == style_label(vaults.deep_view(), *style, j),
            r@.len() == i,
            forall|j: int|
                0 <= j < i ==> r.deep_view()[j] == menu_line_of(
                    style_label(vaults.deep_view(), *style, j),
                    icon@,
                    vaults.deep_view()[j],
                ),
        decreases n - i,
    {
        let line = build_menu_line(&labels[i], icon, &vaults[i]);
        proof {
            assert(labels@[i as int]@ == labels.deep_view()[i as int]);
            assert(vaults@[i as int]@ == vaults.deep_view()[i as int]);
        }
        let ghost pre = r.deep_view();
        r.push(line);
        proof {
            assert(r.deep_view() =~= pre.push(line@));
        }
        i = i + 1;
    }
    r
}

/// The style in force: the override handed on the command line when given,
/// else the configured one.
pub fn effective_style(requested: &Option<DisplayName>, conf: &Config) -> (r: DisplayName)
    ensures
        r == match *requested {
            Some(s) => s,
            None => conf.display_name,
        },
{
    match requested {
        Some(s) => *s,
        None => conf.display_name,
    }
}

/// The icon in force: the override handed on the command line when given,
/// else the configured one.
pub fn effective_icon(requested: &Option<String>, conf: &Config) -> (r: String)
    ensures
        r@ == match *requested {
            Some(s) => s@,
            None => conf.icon@,
        },
{
    match requested {
        Some(s) => s.clone(),
        None => conf.icon.clone(),
    }
}

} // verus!
