use vstd::prelude::*;
use vstd::string::*;

use crate::error::JotError;
use crate::text;

verus! {

/// A path with `part` pushed onto it, as `Path::join` does on Unix: an absolute
/// `part` replaces the path; otherwise a `/` goes between them unless the path is
/// empty or already ends with one.
pub open spec fn join_path(base: Seq<char>, part: Seq<char>) -> Seq<char> {
    if part.len() > 0 && part[0] == '/' {
        part
    } else if base.len() > 0 && base.last() != '/' {
        base + seq!['/'] + part
    } else {
        base + part
    }
}

/// Joins `part` onto the path `base`.
pub fn join(base: &str, part: &str) -> (r: String)
    ensures
        r@ == join_path(base@, part@),
{
    let p = text::chars_of(part);
    if p.len() > 0 && p[0] == '/' {
        return part.to_string();
    }
    let b = text::chars_of(base);
    let mut r = base.to_string();
    if b.len() > 0 && b[b.len() - 1] != '/' {
        r.append("/");
        proof {
            reveal_strlit("/");
        }
    }
    r.append(part);
    r
}

/// The directory of a user's notes: `.jot` in the home directory, given the value
/// of `HOME` (none when it is not set or not Unicode).
pub fn jot_home(home_var: Option<String>) -> (r: Result<String, JotError>)
    ensures
        match home_var {
            None => r matches Err(JotError::NoHome),
            Some(h) => r matches Ok(p) && p@ == join_path(h@, ".jot"@),
        },
{
    match home_var {
        None => Err(JotError::NoHome),
        Some(h) => Ok(join(h.as_str(), ".jot")),
    }
}

/// The configuration file: `config.toml` in the notes directory.
pub fn config_path(home: &str) -> (r: String)
    ensures
        r@ == join_path(home@, "config.toml"@),
{
    join(home, "config.toml")
}

/// The directory that holds a variant's notes: the variant's key in the notes directory.
pub fn variant_dir(home: &str, key: &str) -> (r: String)
    ensures
        r@ == join_path(home@, key@),
{
    join(home, key)
}

/// Where the template of a variant is: `<key>.template` in the `templates`
/// directory of the notes directory.
pub open spec fn template_of(home: Seq<char>, key: Seq<char>) -> Seq<char> {
    join_path(join_path(home, "templates"@), key + ".template"@)
}

/// The template of a variant: `<key>.template` in the `templates` directory.
pub fn template_path(home: &str, key: &str) -> (r: String)
    ensures
        r@ == template_of(home@, key@),
{
    let dir = join(home, "templates");
    let mut name = key.to_string();
    name.append(".template");
    join(dir.as_str(), name.as_str())
}

} // verus!

verus! {

/// The last component of a path, as `Path::file_name` gives it on Unix: empty
/// components and `.` are passed over; a path that ends in `..`, or has no
/// component, has none.
pub open spec fn file_name(p: Seq<char>) -> Option<Seq<char>>
    decreases p.len(),
{
    if p.len() == 0 {
        None
    } else {
        let cut = last_slash(p);
        let seg = p.skip(cut + 1);
        if seg.len() == 0 || seg == seq!['.'] {
            if cut < 0 {
                None
            } else {
                proof {
                    lemma_last_slash(p);
                }
                file_name(p.take(cut))
            }
        } else if seg == seq!['.', '.'] {
            None
        } else {
            Some(seg)
        }
    }
}

/// The position of the last `/` in `p`, or -1 when there is none.
pub open spec fn last_slash(p: Seq<char>) -> int
    decreases p.len(),
{
    if p.len() == 0 {
        -1
    } else if p.last() == '/' {
        p.len() - 1
    } else {
        last_slash(p.drop_last())
    }
}

/// The position of the last `.` in `name`, or -1 when there is none.
pub open spec fn last_dot(name: Seq<char>) -> int
    decreases name.len(),
{
    if name.len() == 0 {
        -1
    } else if name.last() == '.' {
        name.len() - 1
    } else {
        last_dot(name.drop_last())
    }
}

/// The stem of a file name, as `Path::file_stem` takes it: the name up to its
/// last `.`, or the whole name when it has no `.` but a leading one.
pub open spec fn file_stem(name: Seq<char>) -> Seq<char> {
    if last_dot(name) <= 0 {
        name
    } else {
        name.take(last_dot(name))
    }
}

/// The extension of a file name, as `Path::extension` takes it: what follows its
/// last `.`, when that `.` is not its first character.
pub open spec fn extension(name: Seq<char>) -> Option<Seq<char>> {
    if last_dot(name) <= 0 {
        None
    } else {
        Some(name.skip(last_dot(name) + 1))
    }
}

/// Where the last `/` of a path is.
pub proof fn lemma_last_slash(p: Seq<char>)
    ensures
        -1 <= last_slash(p) < p.len(),
        last_slash(p) >= 0 ==> p[last_slash(p)] == '/',
        forall|j: int| last_slash(p) < j < p.len() ==> p[j] != '/',
    decreases p.len(),
{
    if p.len() > 0 && p.last() != '/' {
        lemma_last_slash(p.drop_last());
        assert forall|j: int| 0 <= j < p.len() - 1 implies p.drop_last()[j] == p[j] by {}
    }
}

/// Where the last `.` of a name is.
pub proof fn lemma_last_dot(p: Seq<char>)
    ensures
        -1 <= last_dot(p) < p.len(),
        last_dot(p) >= 0 ==> p[last_dot(p)] == '.',
        forall|j: int| last_dot(p) < j < p.len() ==> p[j] != '.',
    decreases p.len(),
{
    if p.len() > 0 && p.last() != '.' {
        lemma_last_dot(p.drop_last());
        assert forall|j: int| 0 <= j < p.len() - 1 implies p.drop_last()[j] == p[j] by {}
    }
}

/// The last position in `v[..end]` that holds `c`, if there is one.
fn last_index_of(v: &Vec<char>, end: usize, c: char) -> (r: Option<usize>)
    requires
        end <= v.len(),
    ensures
        match r {
            Some(i) => i < end && v@[i as int] == c && forall|j: int| i < j < end ==> v@[j] != c,
            None => forall|j: int| 0 <= j < end ==> v@[j] != c,
        },
{
    let mut i = end;
    while i > 0
        invariant
            i <= end <= v.len(),
            forall|j: int| i <= j < end ==> v@[j] != c,
        decreases i,
    {
        if v[i - 1] == c {
            return Some(i - 1);
        }
        i = i - 1;
    }
    None
}

proof fn lemma_last_slash_is(p: Seq<char>, i: int)
    requires
        -1 <= i < p.len(),
        i >= 0 ==> p[i] == '/',
        forall|j: int| i < j < p.len() ==> p[j] != '/',
    ensures
        last_slash(p) == i,
    decreases p.len(),
{
    if p.len() > 0 && i < p.len() - 1 {
        lemma_last_slash_is(p.drop_last(), i);
    }
}

proof fn lemma_last_dot_is(p: Seq<char>, i: int)
    requires
        -1 <= i < p.len(),
        i >= 0 ==> p[i] == '.',
        forall|j: int| i < j < p.len() ==> p[j] != '.',
    ensures
        last_dot(p) == i,
    decreases p.len(),
{
    if p.len() > 0 && i < p.len() - 1 {
        lemma_last_dot_is(p.drop_last(), i);
    }
}

/// Where the file name of a path lies in it: its start and end positions.
fn file_name_range(v: &Vec<char>) -> (r: Option<(usize, usize)>)
    ensures
        match r {
            Some((s, e)) => s <= e <= v.len() && file_name(v@) == Some(v@.subrange(s as int, e as int)),
            None => file_name(v@) is None,
        },
{
    let mut end = v.len();
    assert(v@.take(end as int) =~= v@);
    loop
        invariant
            end <= v.len(),
            file_name(v@) == file_name(v@.take(end as int)),
        decreases end,
    {
        let ghost p = v@.take(end as int);
        if end == 0 {
            return None;
        }
        let cut = last_index_of(v, end, '/');
        let start: usize = match cut {
            Some(i) => i + 1,
            None => 0,
        };
        proof {
            let ci: int = match cut {
                Some(i) => i as int,
                None => -1,
            };
            lemma_last_slash_is(p, ci);
            assert(p.skip(ci + 1) =~= v@.subrange(start as int, end as int));
        }
        let len = end - start;
        let is_dot = len == 1 && v[start] == '.';
        let is_dotdot = len == 2 && v[start] == '.' && v[start + 1] == '.';
        proof {
            let seg = v@.subrange(start as int, end as int);
            if len == 1 && !is_dot {
                assert(seg[0] != '.');
                assert(seg != seq!['.']);
            }
            if len == 1 && is_dot {
                assert(seg =~= seq!['.']);
            }
            if len == 2 && !is_dotdot {
                assert(seg[0] != '.' || seg[1] != '.');
                assert(seg != seq!['.', '.']);
            }
            if len == 2 && is_dotdot {
                assert(seg =~= seq!['.', '.']);
            }
            if len != 1 {
                assert(seg.len() != seq!['.'].len());
            }
            if len != 2 {
                assert(seg.len() != seq!['.', '.'].len());
            }
        }
        if len == 0 || is_dot {
            match cut {
                None => {
                    return None;
                },
                Some(i) => {
                    assert(p.take(i as int) =~= v@.take(i as int));
                    end = i;
                },
            }
        } else if is_dotdot {
            return None;
        } else {
            return Some((start, end));
        }
    }
}

/// The positions of the stem of a file name within it: it runs from the start to
/// the returned position.
fn stem_end(name: &Vec<char>) -> (r: usize)
    ensures
        r <= name.len(),
        r == (if last_dot(name@) <= 0 { name.len() as int } else { last_dot(name@) }),
        file_stem(name@) == name@.take(r as int),
        extension(name@) == (if r == name.len() && (last_dot(name@) <= 0) {
            None::<Seq<char>>
        } else {
            Some(name@.skip(r + 1))
        }),
{
    let d = last_index_of(name, name.len(), '.');
    proof {
        let di: int = match d {
            Some(i) => i as int,
            None => -1,
        };
        lemma_last_dot_is(name@, di);
    }
    match d {
        Some(i) => {
            if i == 0 {
                assert(name@.take(name.len() as int) =~= name@);
                name.len()
            } else {
                i
            }
        },
        None => {
            assert(name@.take(name.len() as int) =~= name@);
            name.len()
        },
    }
}

/// The stem of the file name of a path, if the path has a file name.
pub fn path_file_stem(path: &str) -> (r: Option<&str>)
    ensures
        match file_name(path@) {
            None => r is None,
            Some(n) => r matches Some(s) && s@ == file_stem(n),
        },
{
    let v = text::chars_of(path);
    match file_name_range(&v) {
        None => None,
        Some((s, e)) => {
            let name_str = path.substring_char(s, e);
            let name = text::chars_of(name_str);
            let k = stem_end(&name);
            let stem = name_str.substring_char(0, k);
            assert(stem@ =~= name@.take(k as int));
            Some(stem)
        },
    }
}

} // verus!

verus! {

/// Whether a file name has the extension `md`, as `Path::extension` takes it.
pub fn has_md_extension(name: &str) -> (r: bool)
    ensures
        r == (extension(name@) == Some("md"@)),
{
    let v = text::chars_of(name);
    let k = stem_end(&v);
    proof {
        lemma_last_dot(v@);
    }
    if k == v.len() {
        return false;
    }
    let ext = name.substring_char(k + 1, v.len());
    assert(ext@ =~= v@.skip(k + 1));
    text::same_text(ext, "md")
}

} // verus!

verus! {

/// The file name of a path with a plain name joined onto it is that name.
pub proof fn lemma_file_name_of_join(dir: Seq<char>, name: Seq<char>)
    requires
        name.len() > 0,
        forall|i: int| 0 <= i < name.len() ==> #[trigger] name[i] != '/',
        name != seq!['.'],
        name != seq!['.', '.'],
    ensures
        file_name(join_path(dir, name)) == Some(name),
{
    let p = join_path(dir, name);
    let c: int = if dir.len() == 0 {
        -1
    } else if dir.last() == '/' {
        dir.len() - 1
    } else {
        dir.len() as int
    };
    assert(p.skip(c + 1) =~= name);
    assert forall|j: int| c < j < p.len() implies p[j] != '/' by {
        assert(p[j] == name[j - c - 1]);
    }
    lemma_last_slash_is(p, c);
}

/// The stem of a name whose last `.` is at `k > 0` is the name up to it.
pub proof fn lemma_stem_at(name: Seq<char>, k: int)
    requires
        0 < k < name.len(),
        name[k] == '.',
        forall|j: int| k < j < name.len() ==> name[j] != '.',
    ensures
        file_stem(name) == name.take(k),
{
    lemma_last_dot_is(name, k);
}

} // verus!
