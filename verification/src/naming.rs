//! Where a target is written when the command line gives no path for it.

use vstd::prelude::*;
use vstd::string::StringExecFns;

verus! {

/// The file name of a target: `<stem>.<suffix>.<ext>`, with `out` as the stem when the input has
/// none.
pub open spec fn target_file_name(stem: Option<Seq<char>>, suffix: Seq<char>, ext: Seq<char>) -> Seq<char> {
    let s = match stem {
        Some(s) => s,
        None => "out"@,
    };
    s + "."@ + suffix + "."@ + ext
}

/// Two suffixes name two files: for one stem and one extension, the target names differ wherever
/// the suffixes do. So the fixed suffix of `--round` keeps its file apart from the one of `--svg`
/// whenever the suffix of `--svg` is another word.
pub proof fn lemma_suffixes_keep_targets_apart(
    stem: Option<Seq<char>>,
    a: Seq<char>,
    b: Seq<char>,
    ext: Seq<char>,
)
    requires
        a != b,
    ensures
        target_file_name(stem, a, ext) != target_file_name(stem, b, ext),
{
    let s = match stem {
        Some(s) => s,
        None => "out"@,
    };
    reveal_strlit(".");
    let na = target_file_name(stem, a, ext);
    let nb = target_file_name(stem, b, ext);
    if na == nb {
        assert(na.len() == s.len() + 1 + a.len() + 1 + ext.len());
        assert(nb.len() == s.len() + 1 + b.len() + 1 + ext.len());
        assert(na.subrange(s.len() + 1int, s.len() + 1int + a.len()) =~= a);
        assert(nb.subrange(s.len() + 1int, s.len() + 1int + b.len()) =~= b);
    }
}

/// The name `<stem>.<suffix>.<ext>`, with `out` standing in for a missing stem.
pub fn file_name_for(stem: Option<&str>, suffix: &str, ext: &str) -> (r: String)
    ensures
        r@ == target_file_name(
            match stem {
                Some(s) => Some(s@),
                None => None,
            },
            suffix@,
            ext@,
        ),
{
    let mut name = match stem {
        Some(s) => s.to_owned(),
        None => "out".to_owned(),
    };
    name.append(".");
    name.append(suffix);
    name.append(".");
    name.append(ext);
    name
}

/// What follows the last `/` of `s`: all of it when it holds none.
pub open spec fn last_segment(s: Seq<char>) -> Seq<char>
    decreases s.len(),
{
    if s.len() == 0 {
        s
    } else if s.last() == '/' {
        Seq::empty()
    } else {
        last_segment(s.drop_last()).push(s.last())
    }
}

/// The index of the last `.` of `n`.
pub open spec fn last_dot(n: Seq<char>) -> Option<int>
    decreases n.len(),
{
    if n.len() == 0 {
        None
    } else if n.last() == '.' {
        Some(n.len() - 1)
    } else {
        last_dot(n.drop_last())
    }
}

/// The stem of a file name, as `Path::file_stem` documents it: the whole name when it holds no
/// `.`, or when its only `.` is the first character; otherwise what stands before the last `.`.
pub open spec fn stem_of_name(n: Seq<char>) -> Seq<char> {
    match last_dot(n) {
        Some(k) => if k > 0 {
            n.take(k)
        } else {
            n
        },
        None => n,
    }
}

/// A path that every platform reads alike: no `\`, no `:` and no leading `//`, which can carry a
/// Windows prefix or separator, and a last component that is a file name: not empty (a trailing
/// `/`), not `.` and not `..`.
pub open spec fn plain_path(s: Seq<char>) -> bool {
    &&& !s.contains('\u{5c}')
    &&& !s.contains(':')
    &&& !(s.len() >= 2 && s[0] == '/' && s[1] == '/')
    &&& last_segment(s).len() > 0
    &&& last_segment(s) != "."@
    &&& last_segment(s) != ".."@
}

/// `Path::file_stem` of `input`: its last component without the final extension, `None` when
/// the path has no file name or the stem is not valid text.
///
/// Claimed: for a [`plain_path`], whose last component is what follows its last `/` on every
/// platform, the stem is the one the documentation of `file_stem` gives for that name
/// ([`stem_of_name`]). For other paths what the stem is depends on the separators and prefixes of
/// the platform (a Windows verbatim path separates only at `\`), and is not stated.
#[verifier::external_body]
fn file_stem(input: &str) -> (r: Option<String>)
    ensures
        plain_path(input@) ==> (r is Some && r.unwrap()@ == stem_of_name(last_segment(input@))),
{
    std::path::Path::new(input).file_stem().and_then(|s| s.to_str()).map(|s| s.to_string())
}

/// `Path::with_file_name`: `input` with its last component replaced by `name`, or `name` pushed
/// when it has none.
///
/// Claimed: when `input` is a [`plain_path`], the result ends with `name`: such a path has a last
/// component and no prefix, so the name replaces that component and is pushed as it is, after a
/// separator or in place of the whole path. What stays in front of it depends on the separators
/// of the platform, and is not stated. A path with a Windows prefix is not covered: a push onto a
/// verbatim path rewrites the name it pushes.
#[verifier::external_body]
fn with_file_name(input: &str, name: &str) -> (r: String)
    ensures
        plain_path(input@) ==> (r@.len() >= name@.len() && r@.subrange(
            r@.len() - name@.len(),
            r@.len() as int,
        ) == name@),
{
    std::path::Path::new(input).with_file_name(name).to_string_lossy().into_owned()
}

/// Where a target goes when no path is given: beside `input`, named
/// `<stem of input>.<suffix>.<ext>`, so `art/logo.svg` gives `art/logo.svgy.png`. For a path with
/// a Windows prefix or separator the name follows the rules of the platform, which are not
/// stated.
pub fn default_name(input: &str, suffix: &str, ext: &str) -> (r: String)
    ensures
        plain_path(input@) ==> ({
            let name = target_file_name(Some(stem_of_name(last_segment(input@))), suffix@, ext@);
            r@.len() >= name.len() && r@.subrange(r@.len() - name.len(), r@.len() as int) == name
        }),
{
    let stem = file_stem(input);
    let name = match &stem {
        Some(s) => file_name_for(Some(s.as_str()), suffix, ext),
        None => file_name_for(None, suffix, ext),
    };
    let r = with_file_name(input, name.as_str());
    r
}

} // verus!
