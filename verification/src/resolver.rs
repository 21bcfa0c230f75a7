//! The variable resolver's pure core.  It seeds the variable map with the
//! computed defaults (working directory, its base name, one OS flag), and
//! decides which referenced names are still unresolved and must be asked of
//! an external collaborator.  The blocking prompt itself, like all I/O,
//! stays with the caller; once a key is set it is never overwritten within
//! a render pass.

use vstd::prelude::*;
use vstd::slice::{slice_subrange, slice_to_vec};
use crate::strmap::StrMap;
use crate::text::{lower_seq, push_all, views};

verus! {

/// The host operating system, decided once at startup.
#[derive(Clone, Copy, Debug, PartialEq, Eq, Structural)]
pub enum OsKind {
    Windows,
    Linux,
    Macos,
}

pub open spec fn pwd_key() -> Seq<u8> {
    seq!['p' as u8, 'w' as u8, 'd' as u8]
}

fn lit_pwd() -> (r: Vec<u8>)
    ensures
        r@ == pwd_key(),
{
    let a: [u8; 3] = ['p' as u8, 'w' as u8, 'd' as u8];
    let r = slice_to_vec(a.as_slice());
    proof {
        assert(r@ =~= pwd_key());
    }
    r
}

pub open spec fn current_dir_path_key() -> Seq<u8> {
    seq![
        'c' as u8, 'u' as u8, 'r' as u8, 'r' as u8, 'e' as u8, 'n' as u8, 't' as u8, '_' as u8,
        'd' as u8, 'i' as u8, 'r' as u8, '_' as u8, 'p' as u8, 'a' as u8, 't' as u8, 'h' as u8,
    ]
}

fn lit_current_dir_path() -> (r: Vec<u8>)
    ensures
        r@ == current_dir_path_key(),
{
    let a: [u8; 16] = [
        'c' as u8, 'u' as u8, 'r' as u8, 'r' as u8, 'e' as u8, 'n' as u8, 't' as u8, '_' as u8,
        'd' as u8, 'i' as u8, 'r' as u8, '_' as u8, 'p' as u8, 'a' as u8, 't' as u8, 'h' as u8,
    ];
    let r = slice_to_vec(a.as_slice());
    proof {
        assert(r@ =~= current_dir_path_key());
    }
    r
}

pub open spec fn current_dir_name_key() -> Seq<u8> {
    seq![
        'c' as u8, 'u' as u8, 'r' as u8, 'r' as u8, 'e' as u8, 'n' as u8, 't' as u8, '_' as u8,
        'd' as u8, 'i' as u8, 'r' as u8, '_' as u8, 'n' as u8, 'a' as u8, 'm' as u8, 'e' as u8,
    ]
}

fn lit_current_dir_name() -> (r: Vec<u8>)
    ensures
        r@ == current_dir_name_key(),
{
    let a: [u8; 16] = [
        'c' as u8, 'u' as u8, 'r' as u8, 'r' as u8, 'e' as u8, 'n' as u8, 't' as u8, '_' as u8,
        'd' as u8, 'i' as u8, 'r' as u8, '_' as u8, 'n' as u8, 'a' as u8, 'm' as u8, 'e' as u8,
    ];
    let r = slice_to_vec(a.as_slice());
    proof {
        assert(r@ =~= current_dir_name_key());
    }
    r
}

pub open spec fn windows_key() -> Seq<u8> {
    seq!['w' as u8, 'i' as u8, 'n' as u8, 'd' as u8, 'o' as u8, 'w' as u8, 's' as u8]
}

pub open spec fn linux_key() -> Seq<u8> {
    seq!['l' as u8, 'i' as u8, 'n' as u8, 'u' as u8, 'x' as u8]
}

pub open spec fn macos_key() -> Seq<u8> {
    seq!['m' as u8, 'a' as u8, 'c' as u8, 'o' as u8, 's' as u8]
}

/// The OS-flag variable set to `"true"` for the given host.
pub open spec fn os_flag_key(os: OsKind) -> Seq<u8> {
    match os {
        OsKind::Windows => windows_key(),
        OsKind::Linux => linux_key(),
        OsKind::Macos => macos_key(),
    }
}

fn lit_os_flag(os: OsKind) -> (r: Vec<u8>)
    ensures
        r@ == os_flag_key(os),
{
    match os {
        OsKind::Windows => {
            let a: [u8; 7] = [
                'w' as u8, 'i' as u8, 'n' as u8, 'd' as u8, 'o' as u8, 'w' as u8, 's' as u8,
            ];
            let r = slice_to_vec(a.as_slice());
            proof {
                assert(r@ =~= windows_key());
            }
            r
        },
        OsKind::Linux => {
            let a: [u8; 5] = ['l' as u8, 'i' as u8, 'n' as u8, 'u' as u8, 'x' as u8];
            let r = slice_to_vec(a.as_slice());
            proof {
                assert(r@ =~= linux_key());
            }
            r
        },
        OsKind::Macos => {
            let a: [u8; 5] = ['m' as u8, 'a' as u8, 'c' as u8, 'o' as u8, 's' as u8];
            let r = slice_to_vec(a.as_slice());
            proof {
                assert(r@ =~= macos_key());
            }
            r
        },
    }
}

pub open spec fn true_lit() -> Seq<u8> {
    seq!['t' as u8, 'r' as u8, 'u' as u8, 'e' as u8]
}

fn lit_true() -> (r: Vec<u8>)
    ensures
        r@ == true_lit(),
{
    let a: [u8; 4] = ['t' as u8, 'r' as u8, 'u' as u8, 'e' as u8];
    let r = slice_to_vec(a.as_slice());
    proof {
        assert(r@ =~= true_lit());
    }
    r
}

/// The reserved variable resolved from the system clipboard before any
/// prompt.
pub open spec fn clipboard_contents_key() -> Seq<u8> {
    seq![
        'c' as u8, 'l' as u8, 'i' as u8, 'p' as u8, 'b' as u8, 'o' as u8, 'a' as u8, 'r' as u8,
        'd' as u8, '_' as u8, 'c' as u8, 'o' as u8, 'n' as u8, 't' as u8, 'e' as u8, 'n' as u8,
        't' as u8, 's' as u8,
    ]
}

fn lit_clipboard_contents() -> (r: Vec<u8>)
    ensures
        r@ == clipboard_contents_key(),
{
    let a: [u8; 18] = [
        'c' as u8, 'l' as u8, 'i' as u8, 'p' as u8, 'b' as u8, 'o' as u8, 'a' as u8, 'r' as u8,
        'd' as u8, '_' as u8, 'c' as u8, 'o' as u8, 'n' as u8, 't' as u8, 'e' as u8, 'n' as u8,
        't' as u8, 's' as u8,
    ];
    let r = slice_to_vec(a.as_slice());
    proof {
        assert(r@ =~= clipboard_contents_key());
    }
    r
}

pub open spec fn output_dir_key() -> Seq<u8> {
    seq![
        'o' as u8, 'u' as u8, 't' as u8, 'p' as u8, 'u' as u8, 't' as u8, '_' as u8, 'd' as u8,
        'i' as u8, 'r' as u8,
    ]
}

fn lit_output_dir() -> (r: Vec<u8>)
    ensures
        r@ == output_dir_key(),
{
    let a: [u8; 10] = [
        'o' as u8, 'u' as u8, 't' as u8, 'p' as u8, 'u' as u8, 't' as u8, '_' as u8, 'd' as u8,
        'i' as u8, 'r' as u8,
    ];
    let r = slice_to_vec(a.as_slice());
    proof {
        assert(r@ =~= output_dir_key());
    }
    r
}

pub open spec fn filename_key() -> Seq<u8> {
    seq!['f' as u8, 'i' as u8, 'l' as u8, 'e' as u8, 'n' as u8, 'a' as u8, 'm' as u8, 'e' as u8]
}

fn lit_filename() -> (r: Vec<u8>)
    ensures
        r@ == filename_key(),
{
    let a: [u8; 8] = [
        'f' as u8, 'i' as u8, 'l' as u8, 'e' as u8, 'n' as u8, 'a' as u8, 'm' as u8, 'e' as u8,
    ];
    let r = slice_to_vec(a.as_slice());
    proof {
        assert(r@ =~= filename_key());
    }
    r
}

pub open spec fn set_executable_key() -> Seq<u8> {
    seq![
        's' as u8, 'e' as u8, 't' as u8, '_' as u8, 'e' as u8, 'x' as u8, 'e' as u8, 'c' as u8,
        'u' as u8, 't' as u8, 'a' as u8, 'b' as u8, 'l' as u8, 'e' as u8,
    ]
}

fn lit_set_executable() -> (r: Vec<u8>)
    ensures
        r@ == set_executable_key(),
{
    let a: [u8; 14] = [
        's' as u8, 'e' as u8, 't' as u8, '_' as u8, 'e' as u8, 'x' as u8, 'e' as u8, 'c' as u8,
        'u' as u8, 't' as u8, 'a' as u8, 'b' as u8, 'l' as u8, 'e' as u8,
    ];
    let r = slice_to_vec(a.as_slice());
    proof {
        assert(r@ =~= set_executable_key());
    }
    r
}

/// The default variable bindings present before any prompting: `pwd` and
/// `current_dir_path` both bound to the working directory's absolute path,
/// `current_dir_name` to its base name, and exactly one OS flag bound to
/// `"true"`.
pub fn default_variables(pwd: Vec<u8>, current_dir_name: Vec<u8>, os: OsKind) -> (r: StrMap)
    ensures
        r@ == Map::<Seq<u8>, Seq<u8>>::empty().insert(pwd_key(), pwd@).insert(
            current_dir_path_key(),
            pwd@,
        ).insert(current_dir_name_key(), current_dir_name@).insert(os_flag_key(os), true_lit()),
{
    let pwd_again = slice_to_vec(pwd.as_slice());
    let mut m = StrMap::new();
    m.insert(lit_pwd(), pwd);
    m.insert(lit_current_dir_path(), pwd_again);
    m.insert(lit_current_dir_name(), current_dir_name);
    m.insert(lit_os_flag(os), lit_true());
    m
}

/// The referenced names not yet bound, in the scanner's order: exactly
/// those the caller must still resolve, by clipboard or by prompt.
pub fn missing_names(names: &Vec<Vec<u8>>, variables: &StrMap) -> (r: Vec<Vec<u8>>)
    ensures
        views(r@) == views(names@).filter(|n: Seq<u8>| !variables@.dom().contains(n)),
{
    let ghost all = views(names@);
    let ghost pred = |n: Seq<u8>| !variables@.dom().contains(n);
    let mut out: Vec<Vec<u8>> = Vec::new();
    let mut i: usize = 0;
    proof {
        reveal(Seq::filter);
        assert(views(out@) =~= all.take(0).filter(pred));
    }
    while i < names.len()
        invariant
            all == views(names@),
            pred == (|n: Seq<u8>| !variables@.dom().contains(n)),
            0 <= i <= names@.len(),
            views(out@) == all.take(i as int).filter(pred),
        decreases names@.len() - i,
    {
        proof {
            reveal(Seq::filter);
            assert(all.take(i + 1).drop_last() =~= all.take(i as int));
            assert(all.take(i + 1).last() == all[i as int]);
        }
        let ghost out_before = views(out@);
        if !variables.contains_key(names[i].as_slice()) {
            out.push(slice_to_vec(names[i].as_slice()));
            proof {
                assert(views(out@) =~= out_before.push(all[i as int]));
            }
        }
        proof {
            assert(views(out@) =~= all.take(i + 1).filter(pred));
        }
        i = i + 1;
    }
    proof {
        assert(all.take(names@.len() as int) =~= all);
    }
    out
}

/// When every referenced name is already bound, nothing is left to ask:
/// resolution with a complete map invokes no prompt.
pub proof fn lemma_no_missing_when_all_bound(names: Seq<Seq<u8>>, m: Map<Seq<u8>, Seq<u8>>)
    requires
        forall|i: int| 0 <= i < names.len() ==> m.dom().contains(#[trigger] names[i]),
    ensures
        names.filter(|n: Seq<u8>| !m.dom().contains(n)).len() == 0,
    decreases names.len(),
{
    reveal(Seq::filter);
    if names.len() > 0 {
        let d = names.drop_last();
        assert(forall|i: int| 0 <= i < d.len() ==> d[i] == names[i]);
        lemma_no_missing_when_all_bound(d, m);
    }
}

/// The round trip: a body the scanner accepts, with every reported name
/// already bound, leaves nothing to prompt for and renders without error,
/// whatever the bound values are.
pub proof fn lemma_round_trip(body: Seq<u8>, names: Seq<Seq<u8>>, m: Map<Seq<u8>, Seq<u8>>)
    requires
        crate::template::spec_scan_ok(body),
        forall|i: int| 0 <= i < names.len() ==> m.dom().contains(#[trigger] names[i]),
    ensures
        names.filter(|n: Seq<u8>| !m.dom().contains(n)).len() == 0,
        crate::template::spec_render_doc(body, m) is Some,
{
    lemma_no_missing_when_all_bound(names, m);
    crate::template::lemma_scan_ok_render_total(body, m);
}

/// Whether `name` is the reserved clipboard variable.
pub fn is_clipboard_name(name: &[u8]) -> (r: bool)
    ensures
        r == (name@ == clipboard_contents_key()),
{
    let k = lit_clipboard_contents();
    crate::text::bytes_eq(name, k.as_slice())
}

/// The rendered text with exactly one trailing line terminator removed: a
/// final `\n`, or a final `\r\n`, and nothing else.
pub fn trim_trailing_newline(s: &[u8]) -> (r: Vec<u8>)
    ensures
        s@.len() >= 2 && s@[s@.len() - 1] == 10 && s@[s@.len() - 2] == 13 ==> r@ == s@.take(
            s@.len() - 2,
        ),
        s@.len() >= 1 && s@[s@.len() - 1] == 10 && (s@.len() < 2 || s@[s@.len() - 2] != 13)
            ==> r@ == s@.take(s@.len() - 1),
        s@.len() == 0 || s@[s@.len() - 1] != 10 ==> r@ == s@,
{
    if s.len() >= 2 && s[s.len() - 1] == 10 && s[s.len() - 2] == 13 {
        let r = slice_to_vec(slice_subrange(s, 0, s.len() - 2));
        proof {
            assert(r@ =~= s@.take(s@.len() - 2));
        }
        r
    } else if s.len() >= 1 && s[s.len() - 1] == 10 {
        let r = slice_to_vec(slice_subrange(s, 0, s.len() - 1));
        proof {
            assert(r@ =~= s@.take(s@.len() - 1));
        }
        r
    } else {
        slice_to_vec(s)
    }
}

/// A directory path joined with a relative part, with exactly one
/// separator between them.
pub open spec fn join_path(dir: Seq<u8>, rel: Seq<u8>) -> Seq<u8> {
    if dir.len() > 0 && dir.last() == '/' as u8 {
        dir + rel
    } else {
        dir + seq!['/' as u8] + rel
    }
}

/// `~` expanded to the home directory: `~` alone becomes `home`, a leading
/// `~/` becomes `home` joined with the rest, and any other path is
/// unchanged.
pub open spec fn spec_expand_home(path: Seq<u8>, home: Seq<u8>) -> Seq<u8> {
    if path == seq!['~' as u8] {
        home
    } else if path.len() >= 2 && path[0] == '~' as u8 && path[1] == '/' as u8 {
        join_path(home, path.skip(2))
    } else {
        path
    }
}

/// Expand a leading `~` in `path` to the home directory `home`.
pub fn expand_home_dir(path: &[u8], home: &[u8]) -> (r: Vec<u8>)
    ensures
        r@ == spec_expand_home(path@, home@),
{
    if path.len() == 1 && path[0] == '~' as u8 {
        let r = slice_to_vec(home);
        proof {
            assert(path@ =~= seq!['~' as u8]);
        }
        return r;
    }
    proof {
        if path@.len() != 1 {
            assert(path@ != seq!['~' as u8]);
        } else if path@[0] != '~' as u8 {
            assert(path@ != seq!['~' as u8]);
        }
    }
    if path.len() >= 2 && path[0] == '~' as u8 && path[1] == '/' as u8 {
        let mut out = slice_to_vec(home);
        if home.len() == 0 || home[home.len() - 1] != '/' as u8 {
            out.push('/' as u8);
        }
        let rel = slice_subrange(path, 2, path.len());
        push_all(&mut out, rel);
        proof {
            assert(rel@ =~= path@.skip(2));
            if home@.len() > 0 && home@.last() == '/' as u8 {
                assert(out@ =~= home@ + path@.skip(2));
            } else {
                assert(out@ =~= home@ + seq!['/' as u8] + path@.skip(2));
            }
        }
        out
    } else {
        slice_to_vec(path)
    }
}

/// The destination directory for a rendered template: the header's
/// `output_dir` with `~` expanded, or the working directory when the header
/// does not name one.
pub fn planned_output_dir(header: &StrMap, home: &[u8], cwd: &[u8]) -> (r: Vec<u8>)
    ensures
        header@.dom().contains(output_dir_key()) ==> r@ == spec_expand_home(
            header@[output_dir_key()],
            home@,
        ),
        !header@.dom().contains(output_dir_key()) ==> r@ == cwd@,
{
    let k = lit_output_dir();
    match header.get(k.as_slice()) {
        Some(dir) => expand_home_dir(dir.as_slice(), home),
        None => slice_to_vec(cwd),
    }
}

/// The output file name the header suggests, if any.
pub fn header_filename(header: &StrMap) -> (r: Option<Vec<u8>>)
    ensures
        match r {
            Some(v) => header@.dom().contains(filename_key()) && v@
                == header@[filename_key()],
            None => !header@.dom().contains(filename_key()),
        },
{
    let k = lit_filename();
    match header.get(k.as_slice()) {
        Some(v) => Some(slice_to_vec(v.as_slice())),
        None => None,
    }
}

/// Whether the header asks for the output to be made executable: its
/// `set_executable` value is `true` in any ASCII case.
pub fn set_executable_requested(header: &StrMap) -> (r: bool)
    ensures
        r == (header@.dom().contains(set_executable_key()) && lower_seq(
            header@[set_executable_key()],
        ) == true_lit()),
{
    let k = lit_set_executable();
    match header.get(k.as_slice()) {
        Some(v) => {
            let t = lit_true();
            let eq = crate::text::eq_ignore_ascii_case_bytes(v.as_slice(), t.as_slice());
            proof {
                assert(lower_seq(true_lit()) =~= true_lit());
            }
            eq
        },
        None => false,
    }
}

} // verus!
