use vstd::prelude::*;
use crate::text::{
    chars_of, count_char, count_char_exec, last_index_exec, last_index_of, lemma_last_index_bounds,
    push_all, slice_exec, string_of,
};

verus! {

/// A build output file whose name embeds a content hash:
/// `prefix-hash.ext`, served under the route `#[get("prefix-hash.ext")]`.
#[derive(Debug, Clone, PartialEq, Eq)]
pub struct DynHashFile {
    pub prefix: String,
    pub hash: String,
    pub ext: String,
    pub web_route: String,
    pub filename: String,
}

/// `prefix-hash.ext`.
pub open spec fn compose_name(prefix: Seq<char>, hash: Seq<char>, ext: Seq<char>) -> Seq<char> {
    prefix + seq!['-'] + hash + seq!['.'] + ext
}

/// The route declaration `#[get("name")]`.
pub open spec fn route_line(name: Seq<char>) -> Seq<char> {
    seq!['#', '[', 'g', 'e', 't', '(', '"'] + name + seq!['"', ')', ']']
}

impl DynHashFile {
    /// The file name is made of the three parts, and the route names the file.
    pub open spec fn wf(&self) -> bool {
        &&& self.filename@ == compose_name(self.prefix@, self.hash@, self.ext@)
        &&& self.web_route@ == route_line(self.filename@)
    }
}

/// The last component of a `/`-separated path.
pub open spec fn file_name_of(path: Seq<char>) -> Seq<char> {
    path.subrange(last_index_of(path, '/') + 1, path.len() as int)
}

/// The grammar of a hashed file name: split at the last `-`; what follows
/// must hold exactly one `.`, which separates the hash from the extension.
/// Gives `(prefix, hash, ext)`, or `None` for a file that is not hashed.
pub open spec fn parse_name(name: Seq<char>) -> Option<(Seq<char>, Seq<char>, Seq<char>)> {
    let d = last_index_of(name, '-');
    if d < 0 {
        None
    } else {
        let rest = name.subrange(d + 1, name.len() as int);
        if count_char(rest, '.') != 1 {
            None
        } else {
            let dot = last_index_of(rest, '.');
            Some((name.subrange(0, d), rest.subrange(0, dot), rest.subrange(dot + 1, rest.len() as int)))
        }
    }
}

/// Reads a path of a build output file as a hashed file, if its name
/// follows the grammar of `parse_name`; directory components are dropped first.
pub fn parse_dyn_hash_file_path(path: &str) -> (r: Option<DynHashFile>)
    ensures
        match r {
            None => parse_name(file_name_of(path@)) is None,
            Some(f) => {
                &&& parse_name(file_name_of(path@)) == Some((f.prefix@, f.hash@, f.ext@))
                &&& f.filename@ == file_name_of(path@)
                &&& f.wf()
            },
        },
{
    let p = chars_of(path);
    proof {
        lemma_last_index_bounds(p@, '/');
    }
    let start = match last_index_exec(&p, '/') {
        Some(k) => k + 1,
        None => 0,
    };
    let name = slice_exec(&p, start, p.len());
    assert(name@ == file_name_of(path@));
    proof {
        lemma_last_index_bounds(name@, '-');
    }
    let d = match last_index_exec(&name, '-') {
        Some(k) => k,
        None => {
            return None;
        },
    };
    let rest = slice_exec(&name, d + 1, name.len());
    if count_char_exec(&rest, '.') != 1 {
        return None;
    }
    proof {
        lemma_last_index_bounds(rest@, '.');
        lemma_count_zero(rest@, '.');
    }
    let dot = match last_index_exec(&rest, '.') {
        Some(k) => k,
        None => {
            return None;
        },
    };
    let prefix = slice_exec(&name, 0, d);
    let hash = slice_exec(&rest, 0, dot);
    let ext = slice_exec(&rest, dot + 1, rest.len());
    assert(name@ =~= compose_name(prefix@, hash@, ext@));
    let mut route = chars_of("#[get(\"");
    proof {
        reveal_strlit("#[get(\"");
    }
    push_all(&mut route, &name);
    let close = chars_of("\")]");
    proof {
        reveal_strlit("\")]");
    }
    push_all(&mut route, &close);
    assert(route@ =~= route_line(name@));
    Some(DynHashFile {
        prefix: string_of(&prefix),
        hash: string_of(&hash),
        ext: string_of(&ext),
        web_route: string_of(&route),
        filename: string_of(&name),
    })
}

pub proof fn lemma_count_zero(s: Seq<char>, c: char)
    ensures
        last_index_of(s, c) == -1 ==> count_char(s, c) == 0,
    decreases s.len(),
{
    if s.len() > 0 {
        lemma_count_zero(s.drop_last(), c);
    }
}

proof fn lemma_last_index_is(s: Seq<char>, c: char, k: int)
    requires
        0 <= k < s.len(),
        s[k] == c,
        forall|j: int| k < j < s.len() ==> s[j] != c,
    ensures
        last_index_of(s, c) == k,
{
    lemma_last_index_bounds(s, c);
}

proof fn lemma_no_char(s: Seq<char>, c: char)
    requires
        forall|j: int| 0 <= j < s.len() ==> s[j] != c,
    ensures
        last_index_of(s, c) == -1,
        count_char(s, c) == 0,
{
    lemma_last_index_bounds(s, c);
    lemma_count_zero(s, c);
}

proof fn lemma_count_concat(a: Seq<char>, b: Seq<char>, c: char)
    ensures
        count_char(a + b, c) == count_char(a, c) + count_char(b, c),
    decreases b.len(),
{
    if b.len() == 0 {
        assert(a + b =~= a);
    } else {
        lemma_count_concat(a, b.drop_last(), c);
        assert((a + b).drop_last() =~= a + b.drop_last());
    }
}

/// Composing a file name from a prefix, a hash and an extension and
/// parsing its path gives the three parts back, where neither the hash
/// nor the extension holds a `-` or a `.`, and no part holds a `/`.
pub proof fn lemma_parse_round_trip(prefix: Seq<char>, hash: Seq<char>, ext: Seq<char>)
    requires
        forall|j: int| 0 <= j < prefix.len() ==> prefix[j] != '/',
        forall|j: int| 0 <= j < hash.len() ==> hash[j] != '-' && hash[j] != '.' && hash[j] != '/',
        forall|j: int| 0 <= j < ext.len() ==> ext[j] != '-' && ext[j] != '.' && ext[j] != '/',
    ensures
        file_name_of(compose_name(prefix, hash, ext)) == compose_name(prefix, hash, ext),
        parse_name(compose_name(prefix, hash, ext)) == Some((prefix, hash, ext)),
{
    let name = compose_name(prefix, hash, ext);
    let d = prefix.len() as int;
    assert forall|j: int| 0 <= j < name.len() implies name[j] != '/' by {
        if j < d {
            assert(name[j] == prefix[j]);
        } else if d < j <= d + hash.len() {
            assert(name[j] == hash[j - d - 1]);
        } else if j > d + hash.len() + 1 {
            assert(name[j] == ext[j - d - hash.len() - 2]);
        }
    }
    lemma_no_char(name, '/');
    assert(name.subrange(0, name.len() as int) =~= name);
    assert forall|j: int| d < j < name.len() implies name[j] != '-' by {
        if d < j <= d + hash.len() {
            assert(name[j] == hash[j - d - 1]);
        } else if j > d + hash.len() + 1 {
            assert(name[j] == ext[j - d - hash.len() - 2]);
        }
    }
    lemma_last_index_is(name, '-', d);
    let rest = name.subrange(d + 1, name.len() as int);
    assert(rest =~= hash + seq!['.'] + ext);
    lemma_no_char(hash, '.');
    lemma_no_char(ext, '.');
    lemma_count_concat(hash, seq!['.'], '.');
    lemma_count_concat(hash + seq!['.'], ext, '.');
    assert(seq!['.'].drop_last() =~= Seq::<char>::empty());
    assert(count_char(Seq::<char>::empty(), '.') == 0);
    assert(seq!['.'].last() == '.');
    assert(count_char(seq!['.'], '.') == 1);
    assert(count_char(rest, '.') == 1);
    assert forall|j: int| hash.len() < j < rest.len() implies rest[j] != '.' by {
        assert(rest[j] == ext[j - hash.len() - 1]);
    }
    lemma_last_index_is(rest, '.', hash.len() as int);
    assert(name.subrange(0, d) =~= prefix);
    assert(rest.subrange(0, hash.len() as int) =~= hash);
    assert(rest.subrange(hash.len() + 1 as int, rest.len() as int) =~= ext);
    assert(last_index_of(name, '-') == d);
    assert(last_index_of(rest, '.') == hash.len());
}

/// A file name without a `-`, or whose part after the last `-` holds no
/// `.` or more than one, is not a hashed file.
pub proof fn lemma_parse_rejects(name: Seq<char>)
    ensures
        (forall|j: int| 0 <= j < name.len() ==> name[j] != '-') ==> parse_name(name) is None,
        last_index_of(name, '-') >= 0 && count_char(
            name.subrange(last_index_of(name, '-') + 1, name.len() as int),
            '.',
        ) != 1 ==> parse_name(name) is None,
{
    lemma_last_index_bounds(name, '-');
}

} // verus!
