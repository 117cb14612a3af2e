use vstd::prelude::*;

use crate::jni::strings_view;

verus! {

/// `s` cut at every `sep`, as `str::split` cuts it: `n` separators give
/// `n + 1` pieces, some of them possibly empty.
pub open spec fn split_on(s: Seq<char>, sep: char) -> Seq<Seq<char>>
    decreases s.len(),
{
    if s.len() == 0 {
        seq![Seq::empty()]
    } else {
        let p = split_on(s.drop_last(), sep);
        if s.last() == sep {
            p.push(Seq::empty())
        } else {
            p.update(p.len() - 1, p.last().push(s.last()))
        }
    }
}

proof fn lemma_split_on_nonempty(s: Seq<char>, sep: char)
    ensures
        split_on(s, sep).len() > 0,
    decreases s.len(),
{
    if s.len() > 0 {
        lemma_split_on_nonempty(s.drop_last(), sep);
    }
}

/// A search-path list: cut at `:` where it has one, else at `;`.
pub open spec fn spec_split_paths(s: Seq<char>) -> Seq<Seq<char>> {
    if s.contains(':') {
        split_on(s, ':')
    } else if s.contains(';') {
        split_on(s, ';')
    } else {
        seq![s]
    }
}

/// Whether `s` holds `c`.
fn has_char(s: &str, c: char) -> (r: bool)
    ensures
        r == s@.contains(c),
{
    let n = s.unicode_len();
    let mut i: usize = 0;
    while i < n
        invariant
            0 <= i <= n,
            n == s@.len(),
            forall|j: int| 0 <= j < i ==> s@[j] != c,
        decreases n - i,
    {
        if s.get_char(i) == c {
            return true;
        }
        i = i + 1;
    }
    false
}

/// Cuts `s` at every `sep`.
fn split_at_char(s: &str, sep: char) -> (r: Vec<String>)
    ensures
        strings_view(r@) == split_on(s@, sep),
{
    let n = s.unicode_len();
    let mut out: Vec<String> = Vec::new();
    let mut start: usize = 0;
    let mut i: usize = 0;
    proof {
        assert(s@.take(0) =~= Seq::<char>::empty());
        assert(s@.subrange(0, 0) =~= Seq::<char>::empty());
        assert(strings_view(out@).push(s@.subrange(0, 0)) =~= seq![Seq::<char>::empty()]);
    }
    while i < n
        invariant
            0 <= start <= i <= n,
            n == s@.len(),
            split_on(s@.take(i as int), sep) == strings_view(out@).push(s@.subrange(start as int, i as int)),
        decreases n - i,
    {
        let c = s.get_char(i);
        proof {
            assert(s@.take(i + 1).drop_last() =~= s@.take(i as int));
            assert(s@.take(i + 1).last() == c);
        }
        if c == sep {
            let ghost before = out@;
            let piece = s.substring_char(start, i).to_owned();
            out.push(piece);
            proof {
                assert(strings_view(out@) =~= strings_view(before).push(piece@));
                assert(s@.subrange(i + 1, i + 1) =~= Seq::<char>::empty());
            }
            start = i + 1;
        } else {
            proof {
                assert(s@.subrange(start as int, i + 1) =~= s@.subrange(start as int, i as int).push(c));
            }
        }
        i = i + 1;
    }
    let last = s.substring_char(start, n).to_owned();
    let ghost before = out@;
    out.push(last);
    proof {
        assert(s@.take(n as int) =~= s@);
        assert(strings_view(out@) =~= strings_view(before).push(last@));
    }
    out
}


/// Splits a search-path list at `:`, or at `;` where it has no `:`.
pub fn split_paths(input: &str) -> (r: Vec<String>)
    ensures
        strings_view(r@) == spec_split_paths(input@),
{
    if has_char(input, ':') {
        split_at_char(input, ':')
    } else if has_char(input, ';') {
        split_at_char(input, ';')
    } else {
        let mut v: Vec<String> = Vec::new();
        let whole = input.to_owned();
        v.push(whole);
        proof {
            assert(strings_view(v@) =~= seq![input@]);
        }
        v
    }
}

/// `s` with every occurrence of `pat`, from the left and without overlap,
/// replaced by `rep`.
pub open spec fn replace_all(s: Seq<char>, pat: Seq<char>, rep: Seq<char>) -> Seq<char>
    decreases s.len(),
{
    if s.len() == 0 || pat.len() == 0 {
        s
    } else if pat.len() <= s.len() && s.take(pat.len() as int) == pat {
        rep + replace_all(s.skip(pat.len() as int), pat, rep)
    } else {
        seq![s[0]] + replace_all(s.skip(1), pat, rep)
    }
}

/// Replaces every occurrence of a non-empty `pat` in `s` by `rep`.
pub fn replace(s: &str, pat: &str, rep: &str) -> (r: String)
    requires
        pat@.len() > 0,
    ensures
        r@ == replace_all(s@, pat@, rep@),
{
    let n = s.unicode_len();
    let plen = pat.unicode_len();
    let pat_owned = pat.to_owned();
    let mut out = String::new();
    let mut i: usize = 0;
    proof {
        assert(s@.skip(0) =~= s@);
        assert(out@ + replace_all(s@, pat@, rep@) =~= replace_all(s@, pat@, rep@));
    }
    while i < n
        invariant
            0 <= i <= n,
            n == s@.len(),
            plen == pat@.len(),
            plen > 0,
            pat_owned@ == pat@,
            replace_all(s@, pat@, rep@) == out@ + replace_all(s@.skip(i as int), pat@, rep@),
        decreases n - i,
    {
        let ghost rest = s@.skip(i as int);
        let matched = if plen <= n - i {
            let piece = s.substring_char(i, i + plen).to_owned();
            proof {
                assert(rest.take(plen as int) =~= s@.subrange(i as int, i + plen));
            }
            piece == pat_owned
        } else {
            false
        };
        if matched {
            proof {
                assert(rest.skip(plen as int) =~= s@.skip(i + plen));
                assert(out@ + rep@ + replace_all(s@.skip(i + plen), pat@, rep@) =~= out@ + (rep@
                    + replace_all(s@.skip(i + plen), pat@, rep@)));
            }
            out.append(rep);
            i = i + plen;
        } else {
            let one = s.substring_char(i, i + 1);
            proof {
                assert(one@ =~= seq![rest[0]]);
                assert(rest.skip(1) =~= s@.skip(i + 1));
                assert(out@ + one@ + replace_all(s@.skip(i + 1), pat@, rep@) =~= out@ + (seq![rest[0]]
                    + replace_all(s@.skip(i + 1), pat@, rep@)));
            }
            out.append(one);
            i = i + 1;
        }
    }
    proof {
        assert(s@.skip(n as int) =~= Seq::<char>::empty());
        assert(out@ + Seq::<char>::empty() =~= out@);
    }
    out
}

/// The value of `$LIB`: `lib64` for 64-bit pointers, `lib` otherwise.
pub open spec fn lib_token(pointer_width_64: bool) -> Seq<char> {
    if pointer_width_64 {
        "lib64"@
    } else {
        "lib"@
    }
}

/// A search-path list with its tokens substituted, in this order: `$ORIGIN`
/// and `${ORIGIN}` by the parent directory where there is one, `$LIB` and
/// `${LIB}`, then `$PLATFORM` and `${PLATFORM}`.
pub open spec fn spec_replace_tokens(
    s: Seq<char>,
    parent: Option<Seq<char>>,
    pointer_width_64: bool,
    platform: Seq<char>,
) -> Seq<char> {
    let s1 = match parent {
        Some(p) => replace_all(replace_all(s, "$ORIGIN"@, p), "${ORIGIN}"@, p),
        None => s,
    };
    let s2 = replace_all(replace_all(s1, "$LIB"@, lib_token(pointer_width_64)), "${LIB}"@, lib_token(pointer_width_64));
    replace_all(replace_all(s2, "$PLATFORM"@, platform), "${PLATFORM}"@, platform)
}

/// Substitutes the dynamic-linker tokens of a search-path list.
pub fn replace_tokens(s: &str, parent_path: Option<&str>, pointer_width_64: bool, platform: &str) -> (r: String)
    ensures
        r@ == spec_replace_tokens(
            s@,
            match parent_path {
                Some(p) => Some(p@),
                None => None,
            },
            pointer_width_64,
            platform@,
        ),
{
    proof {
        reveal_strlit("$ORIGIN");
        reveal_strlit("${ORIGIN}");
        reveal_strlit("$LIB");
        reveal_strlit("${LIB}");
        reveal_strlit("$PLATFORM");
        reveal_strlit("${PLATFORM}");
        reveal_strlit("lib64");
        reveal_strlit("lib");
    }
    let s1 = match parent_path {
        Some(p) => {
            let a = replace(s, "$ORIGIN", p);
            replace(a.as_str(), "${ORIGIN}", p)
        },
        None => s.to_owned(),
    };
    let lib = if pointer_width_64 {
        "lib64"
    } else {
        "lib"
    };
    let s2 = replace(s1.as_str(), "$LIB", lib);
    let s3 = replace(s2.as_str(), "${LIB}", lib);
    let s4 = replace(s3.as_str(), "$PLATFORM", platform);
    replace(s4.as_str(), "${PLATFORM}", platform)
}

/// What the dynamic linker's environment supplies to the search: the value
/// of `LD_LIBRARY_PATH`, the `AT_PLATFORM` string, and the pointer width.
#[derive(Clone, Debug)]
pub struct SearchEnvironment {
    pub ld_library_path: Option<String>,
    pub platform: String,
    pub pointer_width_64: bool,
}

/// The system directories searched last.
pub open spec fn system_directories(pointer_width_64: bool) -> Seq<Seq<char>> {
    if pointer_width_64 {
        seq!["/lib64/"@, "/usr/lib64/"@, "/lib/"@, "/usr/lib/"@]
    } else {
        seq!["/lib32/"@, "/usr/lib32/"@, "/lib/"@, "/usr/lib/"@]
    }
}

pub open spec fn option_seq(o: Option<Seq<char>>) -> Seq<Seq<char>> {
    match o {
        Some(x) => seq![x],
        None => Seq::empty(),
    }
}

pub open spec fn option_string_view(o: Option<String>) -> Option<Seq<char>> {
    match o {
        Some(x) => Some(x@),
        None => None,
    }
}

/// The directories that `LD_LIBRARY_PATH` names, tokens substituted.
pub open spec fn spec_ld_directories(parent: Option<Seq<char>>, env: SearchEnvironment) -> Seq<Seq<char>> {
    match env.ld_library_path {
        Some(l) => spec_split_paths(spec_replace_tokens(l@, parent, env.pointer_width_64, env.platform@)),
        None => Seq::empty(),
    }
}

/// The directories searched for a library, in order: the extra paths, the
/// parent directory of the object that needs it, `LD_LIBRARY_PATH` with its
/// tokens substituted, the object's DT_RUNPATH, then the system directories.
pub open spec fn spec_search_directories(
    extra: Option<Seq<Seq<char>>>,
    parent: Option<Seq<char>>,
    env: SearchEnvironment,
    runpath: Option<Seq<char>>,
) -> Seq<Seq<char>> {
    let e = match extra {
        Some(x) => x,
        None => Seq::empty(),
    };
    let ld = spec_ld_directories(parent, env);
    e + option_seq(parent) + ld + option_seq(runpath) + system_directories(env.pointer_width_64)
}

fn push_all(out: &mut Vec<String>, more: Vec<String>)
    ensures
        strings_view(final(out)@) == strings_view(old(out)@) + strings_view(more@),
{
    let mut more = more;
    let ghost m = more@;
    let ghost o0 = out@;
    let mut i: usize = 0;
    while i < more.len()
        invariant
            0 <= i <= m.len(),
            more@ == m,
            strings_view(out@) == strings_view(o0) + strings_view(m.take(i as int)),
        decreases m.len() - i,
    {
        let ghost before = out@;
        out.push(more[i].clone());
        proof {
            assert(strings_view(m.take(i + 1)) =~= strings_view(m.take(i as int)).push(m[i as int]@));
            assert(strings_view(out@) =~= strings_view(before).push(m[i as int]@));
        }
        i = i + 1;
    }
    proof {
        assert(m.take(m.len() as int) =~= m);
    }
}

fn push_str(out: &mut Vec<String>, s: &str)
    ensures
        strings_view(final(out)@) == strings_view(old(out)@).push(s@),
{
    let ghost before = out@;
    out.push(s.to_owned());
    proof {
        assert(strings_view(out@) =~= strings_view(before).push(s@));
    }
}

fn ld_directories(parent_path: &Option<String>, env: &SearchEnvironment) -> (r: Vec<String>)
    ensures
        strings_view(r@) == spec_ld_directories(option_string_view(*parent_path), *env),
{
    match &env.ld_library_path {
        Some(l) => {
            let parent = match parent_path {
                Some(p) => Some(p.as_str()),
                None => None,
            };
            let replaced = replace_tokens(l.as_str(), parent, env.pointer_width_64, env.platform.as_str());
            split_paths(replaced.as_str())
        },
        None => {
            let v: Vec<String> = Vec::new();
            assert(strings_view(v@) =~= Seq::<Seq<char>>::empty());
            v
        },
    }
}

fn push_system_directories(out: &mut Vec<String>, pointer_width_64: bool)
    ensures
        strings_view(final(out)@) == strings_view(old(out)@) + system_directories(pointer_width_64),
{
    let ghost d = strings_view(out@);
    proof {
        reveal_strlit("/lib64/");
        reveal_strlit("/usr/lib64/");
        reveal_strlit("/lib32/");
        reveal_strlit("/usr/lib32/");
        reveal_strlit("/lib/");
        reveal_strlit("/usr/lib/");
    }
    if pointer_width_64 {
        push_str(out, "/lib64/");
        push_str(out, "/usr/lib64/");
    } else {
        push_str(out, "/lib32/");
        push_str(out, "/usr/lib32/");
    }
    push_str(out, "/lib/");
    push_str(out, "/usr/lib/");
    assert(strings_view(out@) =~= d + system_directories(pointer_width_64));
}

/// The directories to search for a library, in order.
pub fn search_directories(
    extra_paths: Option<Vec<String>>,
    parent_path: Option<String>,
    env: &SearchEnvironment,
    dt_runpath: Option<String>,
) -> (r: Vec<String>)
    ensures
        strings_view(r@) == spec_search_directories(
            match extra_paths {
                Some(x) => Some(strings_view(x@)),
                None => None,
            },
            option_string_view(parent_path),
            *env,
            option_string_view(dt_runpath),
        ),
{
    let ghost extra_v = match &extra_paths {
        Some(x) => strings_view(x@),
        None => Seq::empty(),
    };
    let mut out: Vec<String> = Vec::new();
    match extra_paths {
        Some(x) => push_all(&mut out, x),
        None => {},
    }
    assert(strings_view(out@) =~= extra_v);
    let ghost a = strings_view(out@);
    match &parent_path {
        Some(p) => push_str(&mut out, p.as_str()),
        None => {},
    }
    assert(strings_view(out@) =~= a + option_seq(option_string_view(parent_path)));
    let ld = ld_directories(&parent_path, env);
    push_all(&mut out, ld);
    let ghost c = strings_view(out@);
    match &dt_runpath {
        Some(p) => push_str(&mut out, p.as_str()),
        None => {},
    }
    assert(strings_view(out@) =~= c + option_seq(option_string_view(dt_runpath)));
    push_system_directories(&mut out, env.pointer_width_64);
    out
}

/// `name` inside directory `dir`, with one separator between them.
pub open spec fn spec_join(dir: Seq<char>, name: Seq<char>) -> Seq<char> {
    if dir.len() == 0 {
        name
    } else if dir.last() == '/' {
        dir + name
    } else {
        dir + seq!['/'] + name
    }
}

/// Joins a directory and a file name.
pub fn join_path(dir: &str, name: &str) -> (r: String)
    ensures
        r@ == spec_join(dir@, name@),
{
    let n = dir.unicode_len();
    if n == 0 {
        return name.to_owned();
    }
    let mut r = dir.to_owned();
    if dir.get_char(n - 1) != '/' {
        proof {
            reveal_strlit("/");
        }
        r.append("/");
    }
    r.append(name);
    r
}

/// What the file system shows of one search directory for a library name:
/// whether the directory exists, whether it holds the file directly,
/// whether it is a directory, and, in listing order, its immediate
/// subdirectories that hold the file.
#[derive(Clone, Debug)]
pub struct DirectoryListing {
    pub path: String,
    pub exists: bool,
    pub has_entry: bool,
    pub is_dir: bool,
    pub subdirs_with_entry: Vec<String>,
}

/// The file that a directory supplies for `name`: a direct match first,
/// else the first subdirectory that holds it.
pub open spec fn spec_check_directory(name: Seq<char>, d: DirectoryListing) -> Option<Seq<char>> {
    if !d.exists {
        None
    } else if d.has_entry {
        Some(spec_join(d.path@, name))
    } else if !d.is_dir || d.subdirs_with_entry@.len() == 0 {
        None
    } else {
        Some(spec_join(d.subdirs_with_entry@[0]@, name))
    }
}

/// Picks the file that one search directory supplies for `name`.
pub fn check_directory(name: &str, directory: &DirectoryListing) -> (r: Option<String>)
    ensures
        option_string_view(r) == spec_check_directory(name@, *directory),
{
    if !directory.exists {
        return None;
    }
    if directory.has_entry {
        return Some(join_path(directory.path.as_str(), name));
    }
    if !directory.is_dir || directory.subdirs_with_entry.len() == 0 {
        return None;
    }
    Some(join_path(directory.subdirs_with_entry[0].as_str(), name))
}

/// The first file that the directories, in order, supply for `name`.
pub open spec fn spec_locate(name: Seq<char>, dirs: Seq<DirectoryListing>) -> Option<Seq<char>>
    decreases dirs.len(),
{
    if dirs.len() == 0 {
        None
    } else {
        match spec_check_directory(name, dirs[0]) {
            Some(p) => Some(p),
            None => spec_locate(name, dirs.skip(1)),
        }
    }
}

/// Finds `name` in the search directories, in order; absent when none
/// holds it.
pub fn locate_library(name: &str, directories: &Vec<DirectoryListing>) -> (r: Option<String>)
    ensures
        option_string_view(r) == spec_locate(name@, directories@),
{
    let mut i: usize = 0;
    proof {
        assert(directories@.skip(0) =~= directories@);
    }
    while i < directories.len()
        invariant
            0 <= i <= directories@.len(),
            spec_locate(name@, directories@) == spec_locate(name@, directories@.skip(i as int)),
        decreases directories@.len() - i,
    {
        proof {
            assert(directories@.skip(i as int)[0] == directories@[i as int]);
            assert(directories@.skip(i as int).skip(1) =~= directories@.skip(i + 1));
        }
        match check_directory(name, &directories[i]) {
            Some(p) => {
                return Some(p);
            },
            None => {},
        }
        i = i + 1;
    }
    None
}

} // verus!
