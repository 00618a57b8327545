use vstd::prelude::*;
use crate::error::DynHashError;
use crate::parse::DynHashFile;
use crate::text::{
    chars_of, contains, contains_exec, find, find_exec, lines_of, push_all, remove_all,
    remove_all_exec, slice_exec, split_lines, string_of, views, ends_line, lemma_lines_concat,
};

verus! {

/// How many characters of a line hold a hash: the span that is replaced.
pub const HASH_WIDTH: usize = 8;

/// `prefix-`: the marker that precedes a file's hash in a line.
pub open spec fn dash_marker(f: DynHashFile) -> Seq<char> {
    f.prefix@.push('-')
}

/// `.ext`: the marker of a file's extension.
pub open spec fn dot_marker(f: DynHashFile) -> Seq<char> {
    seq!['.'] + f.ext@
}

/// A line refers to a file when it holds both of the file's markers.
pub open spec fn line_matches(line: Seq<char>, f: DynHashFile) -> bool {
    contains(line, dash_marker(f)) && contains(line, dot_marker(f))
}

/// Where the hash span starts: just after the first `prefix-`.
pub open spec fn span_start(line: Seq<char>, f: DynHashFile) -> int {
    find(line, dash_marker(f)) + dash_marker(f).len()
}

/// Where the hash span ends: `HASH_WIDTH` characters on, or the end of the line.
pub open spec fn span_end(line: Seq<char>, f: DynHashFile) -> int {
    let start = span_start(line, f);
    if start + HASH_WIDTH <= line.len() {
        start + HASH_WIDTH
    } else {
        line.len() as int
    }
}

/// The line with its hash span replaced by the file's hash.
pub open spec fn replace_hash(line: Seq<char>, f: DynHashFile) -> Seq<char> {
    line.subrange(0, span_start(line, f)) + f.hash@ + line.subrange(span_end(line, f), line.len() as int)
}

/// The line rewritten for the first file from index `j` on that it refers to.
pub open spec fn rewrite_from(line: Seq<char>, files: Seq<DynHashFile>, j: nat) -> Seq<char>
    decreases files.len() - j,
{
    if j >= files.len() {
        line
    } else if line_matches(line, files[j as int]) {
        replace_hash(line, files[j as int])
    } else {
        rewrite_from(line, files, j + 1)
    }
}

/// The line rewritten for the first file that it refers to; unchanged if none.
pub open spec fn rewrite_line(line: Seq<char>, files: Seq<DynHashFile>) -> Seq<char> {
    rewrite_from(line, files, 0)
}

/// Every line rewritten, in order.
pub open spec fn rewritten_lines(lines: Seq<Seq<char>>, files: Seq<DynHashFile>) -> Seq<Seq<char>> {
    lines.map_values(|l: Seq<char>| rewrite_line(l, files))
}

/// The lines, each followed by a newline.
pub open spec fn join_lines(lines: Seq<Seq<char>>) -> Seq<char>
    decreases lines.len(),
{
    if lines.len() == 0 {
        seq![]
    } else {
        join_lines(lines.drop_last()) + lines.last() + seq!['\n']
    }
}

/// The route text with every line rewritten.
pub open spec fn body_of(lines: Seq<Seq<char>>, files: Seq<DynHashFile>) -> Seq<char> {
    join_lines(rewritten_lines(lines, files))
}

/// The declaration that imports the error type.
pub open spec fn error_import() -> Seq<char> {
    "use crate::error::"@
}

/// The error type named by an import line: the line without the
/// declaration's words and without semicolons.
pub open spec fn error_name_in(line: Seq<char>) -> Seq<char> {
    remove_all(remove_all(line, error_import()), ";"@)
}

/// The error type named by the first import line from index `i` on.
pub open spec fn error_name_from(lines: Seq<Seq<char>>, i: nat) -> Option<Seq<char>>
    decreases lines.len() - i,
{
    if i >= lines.len() {
        None
    } else if contains(lines[i as int], error_import()) {
        Some(error_name_in(lines[i as int]))
    } else {
        error_name_from(lines, i + 1)
    }
}

/// The error type named by the first import line.
pub open spec fn error_name_of(lines: Seq<Seq<char>>) -> Option<Seq<char>> {
    error_name_from(lines, 0)
}

/// `#[get("prefix-`: how a route for the prefix begins.
pub open spec fn route_open(prefix: Seq<char>) -> Seq<char> {
    "#[get(\""@ + prefix + seq!['-']
}

/// `.ext")]`: how a route for the extension ends.
pub open spec fn route_close(ext: Seq<char>) -> Seq<char> {
    seq!['.'] + ext + "\")]"@
}

/// Some line of `text` declares a route for the prefix and extension.
pub open spec fn has_route(text: Seq<char>, prefix: Seq<char>, ext: Seq<char>) -> bool {
    exists|k: int|
        0 <= k < lines_of(text).len() && contains(#[trigger] lines_of(text)[k], route_open(prefix))
            && contains(lines_of(text)[k], route_close(ext))
}

/// Some line of `text` declares a route for the file.
pub open spec fn route_in(text: Seq<char>, f: DynHashFile) -> bool {
    has_route(text, f.prefix@, f.ext@)
}

/// The handler's signature line.
pub open spec fn handler_line(prefix: Seq<char>, ext: Seq<char>, err: Seq<char>) -> Seq<char> {
    "pub async fn get_"@ + prefix + "_"@ + ext + "() -> Result<NamedFile, "@ + err + "> {\n"@
}

/// The handler's body line, which serves the file.
pub open spec fn serve_line(filename: Seq<char>) -> Seq<char> {
    "    Ok(NamedFile::open(\"src/web/dist/assets/"@ + filename + "\").unwrap())\n"@
}

/// The block appended for a file without a route: a blank line, the
/// route, and a handler that serves the file.
pub open spec fn route_block(f: DynHashFile, err: Seq<char>) -> Seq<char> {
    seq!['\n'] + f.web_route@ + seq!['\n'] + handler_line(f.prefix@, f.ext@, err) + serve_line(f.filename@)
        + "}\n"@
}

/// The blocks of the files, in order.
pub open spec fn blocks(fs: Seq<DynHashFile>, err: Seq<char>) -> Seq<char>
    decreases fs.len(),
{
    if fs.len() == 0 {
        seq![]
    } else {
        blocks(fs.drop_last(), err) + route_block(fs.last(), err)
    }
}

/// The files among the first `n` that get a block appended to `body`: each
/// one for which the text so far declares no route.
pub open spec fn synthesized(body: Seq<char>, files: Seq<DynHashFile>, err: Seq<char>, n: nat) -> Seq<
    DynHashFile,
>
    decreases n,
{
    if n == 0 {
        seq![]
    } else {
        let s = synthesized(body, files, err, (n - 1) as nat);
        if route_in(body + blocks(s, err), files[n - 1]) {
            s
        } else {
            s.push(files[n - 1])
        }
    }
}

/// Some file has no route in `body`.
pub open spec fn needs_synthesis(body: Seq<char>, files: Seq<DynHashFile>) -> bool {
    exists|j: int| 0 <= j < files.len() && !route_in(body, #[trigger] files[j])
}

/// What `reconcile` makes of a route text: `None` where a route has to be
/// written and no error type is imported.
pub open spec fn reconciled(text: Seq<char>, files: Seq<DynHashFile>) -> Option<Seq<char>> {
    let lines = lines_of(text);
    let body = body_of(lines, files);
    match error_name_of(lines) {
        None => if needs_synthesis(body, files) {
            None
        } else {
            Some(body)
        },
        Some(err) => Some(body + blocks(synthesized(body, files, err, files.len()), err)),
    }
}

/// Whether some line of `text` holds both `open` and `close`.
fn has_route_chars(text: &Vec<char>, open: &Vec<char>, close: &Vec<char>) -> (r: bool)
    ensures
        r == exists|k: int|
            0 <= k < lines_of(text@).len() && contains(#[trigger] lines_of(text@)[k], open@)
                && contains(lines_of(text@)[k], close@),
{
    let lines = split_lines(text);
    let mut i: usize = 0;
    while i < lines.len()
        invariant
            i <= lines.len(),
            views(lines@) == lines_of(text@),
            forall|k: int|
                0 <= k < i ==> !(contains(#[trigger] lines_of(text@)[k], open@) && contains(
                    lines_of(text@)[k],
                    close@,
                )),
        decreases lines.len() - i,
    {
        assert(lines@[i as int]@ == lines_of(text@)[i as int]);
        if contains_exec(&lines[i], open) && contains_exec(&lines[i], close) {
            return true;
        }
        i = i + 1;
    }
    false
}

/// Whether the source declares a route `#[get("prefix-...ext")]`: some
/// line holds both `#[get("prefix-` and `.ext")]`.
pub fn has_route_yet(source_code: &str, prefix: &str, ext: &str) -> (r: bool)
    ensures
        r == has_route(source_code@, prefix@, ext@),
{
    let text = chars_of(source_code);
    let mut open = chars_of("#[get(\"");
    push_all(&mut open, &chars_of(prefix));
    open.push('-');
    let mut close: Vec<char> = Vec::new();
    close.push('.');
    push_all(&mut close, &chars_of(ext));
    push_all(&mut close, &chars_of("\")]"));
    assert(open@ =~= route_open(prefix@));
    assert(close@ =~= route_close(ext@));
    has_route_chars(&text, &open, &close)
}

/// The line rewritten for the first of the files that it refers to.
fn rewrite_line_exec(line: &Vec<char>, files: &Vec<DynHashFile>) -> (r: Vec<char>)
    ensures
        r@ == rewrite_line(line@, files@),
{
    let mut j: usize = 0;
    while j < files.len()
        invariant
            j <= files.len(),
            rewrite_line(line@, files@) == rewrite_from(line@, files@, j as nat),
        decreases files.len() - j,
    {
        let f = &files[j];
        let mut dash = chars_of(f.prefix.as_str());
        dash.push('-');
        let mut dot: Vec<char> = Vec::new();
        dot.push('.');
        push_all(&mut dot, &chars_of(f.ext.as_str()));
        assert(dash@ =~= dash_marker(*f));
        assert(dot@ =~= dot_marker(*f));
        if contains_exec(line, &dot) {
            match find_exec(line, &dash) {
                Some(i) => {
                    proof {
                        crate::text::lemma_find_from_bounds(line@, dash@, 0);
                    }
                    assert(i + dash@.len() <= line@.len());
                    assert(line@.len() == line.len());
                    let start = i + dash.len();
                    let end = if line.len() - start >= HASH_WIDTH {
                        start + HASH_WIDTH
                    } else {
                        line.len()
                    };
                    let mut out = slice_exec(line, 0, start);
                    push_all(&mut out, &chars_of(f.hash.as_str()));
                    push_all(&mut out, &slice_exec(line, end, line.len()));
                    return out;
                },
                None => {},
            }
        }
        j = j + 1;
    }
    line.clone()
}

/// Appends the route block of `f`, whose handler returns `err` on failure.
fn push_route_block(out: &mut Vec<char>, f: &DynHashFile, err: &Vec<char>)
    ensures
        final(out)@ == old(out)@ + route_block(*f, err@),
{
    let ghost start = out@;
    out.push('\n');
    push_all(out, &chars_of(f.web_route.as_str()));
    out.push('\n');
    push_all(out, &chars_of("pub async fn get_"));
    push_all(out, &chars_of(f.prefix.as_str()));
    push_all(out, &chars_of("_"));
    push_all(out, &chars_of(f.ext.as_str()));
    push_all(out, &chars_of("() -> Result<NamedFile, "));
    push_all(out, err);
    push_all(out, &chars_of("> {\n"));
    let ghost mid = out@;
    assert(mid =~= start + seq!['\n'] + f.web_route@ + seq!['\n'] + handler_line(f.prefix@, f.ext@, err@));
    push_all(out, &chars_of("    Ok(NamedFile::open(\"src/web/dist/assets/"));
    push_all(out, &chars_of(f.filename.as_str()));
    push_all(out, &chars_of("\").unwrap())\n"));
    push_all(out, &chars_of("}\n"));
    assert(out@ =~= mid + serve_line(f.filename@) + "}\n"@);
    assert(out@ =~= start + route_block(*f, err@));
}

/// Reconciles a route text with the hashed files of a build.
///
/// Each line is rewritten for the first file whose markers `prefix-` and
/// `.ext` it holds: the `HASH_WIDTH` characters after the first `prefix-`
/// become the file's hash (fewer where the line ends sooner). The first line
/// that imports from `crate::error::` names the error type. Then, file by
/// file, a route block is appended for each file that the text so far
/// declares no route for; that needs the error type, and without an import
/// the result is `MissingErrorTypeName`.
pub fn reconcile(old_text: &str, files: &Vec<DynHashFile>) -> (r: Result<String, DynHashError>)
    ensures
        match r {
            Ok(s) => reconciled(old_text@, files@) == Some(s@),
            Err(e) => reconciled(old_text@, files@) is None && e is MissingErrorTypeName,
        },
{
    let text = chars_of(old_text);
    let lines = split_lines(&text);
    let ghost ls = lines_of(old_text@);
    let import = chars_of("use crate::error::");
    let semi = chars_of(";");
    proof {
        reveal_strlit("use crate::error::");
        reveal_strlit(";");
    }
    let mut name: Option<Vec<char>> = None;
    let mut body: Vec<char> = Vec::new();
    let mut i: usize = 0;
    while i < lines.len()
        invariant
            i <= lines.len(),
            views(lines@) == ls,
            ls == lines_of(old_text@),
            import@ == error_import(),
            semi@ == ";"@,
            import@.len() > 0,
            semi@.len() > 0,
            body@ == join_lines(rewritten_lines(ls.subrange(0, i as int), files@)),
            name is None ==> error_name_of(ls) == error_name_from(ls, i as nat),
            name is Some ==> error_name_of(ls) == Some(name->Some_0@),
        decreases lines.len() - i,
    {
        let line = &lines[i];
        assert(line@ == ls[i as int]);
        if name.is_none() && contains_exec(line, &import) {
            let stripped = remove_all_exec(line, &import);
            name = Some(remove_all_exec(&stripped, &semi));
        }
        let new_line = rewrite_line_exec(line, files);
        let ghost before = body@;
        push_all(&mut body, &new_line);
        body.push('\n');
        proof {
            let rl = rewritten_lines(ls.subrange(0, i + 1), files@);
            assert(rl.drop_last() =~= rewritten_lines(ls.subrange(0, i as int), files@));
            assert(body@ =~= join_lines(rl));
        }
        i = i + 1;
    }
    assert(ls.subrange(0, i as int) =~= ls);
    let ghost bd = body@;
    assert(bd == body_of(ls, files@));
    let mut out = body;
    let mut j: usize = 0;
    while j < files.len()
        invariant
            j <= files.len(),
            bd == body_of(ls, files@),
            ls == lines_of(old_text@),
            name is None ==> error_name_of(ls) is None,
            name is None ==> out@ == bd,
            name is None ==> forall|k: int| 0 <= k < j ==> route_in(bd, #[trigger] files@[k]),
            name is Some ==> error_name_of(ls) == Some(name->Some_0@),
            name is Some ==> out@ == bd + blocks(
                synthesized(bd, files@, name->Some_0@, j as nat),
                name->Some_0@,
            ),
        decreases files.len() - j,
    {
        let f = &files[j];
        let mut open = chars_of("#[get(\"");
        push_all(&mut open, &chars_of(f.prefix.as_str()));
        open.push('-');
        let mut close: Vec<char> = Vec::new();
        close.push('.');
        push_all(&mut close, &chars_of(f.ext.as_str()));
        push_all(&mut close, &chars_of("\")]"));
        assert(open@ =~= route_open(f.prefix@));
        assert(close@ =~= route_close(f.ext@));
        if !has_route_chars(&out, &open, &close) {
            match &name {
                None => {
                    assert(needs_synthesis(bd, files@));
                    return Err(DynHashError::MissingErrorTypeName);
                },
                Some(err) => {
                    push_route_block(&mut out, f, err);
                    proof {
                        let s = synthesized(bd, files@, err@, j as nat);
                        assert(s.push(*f).drop_last() =~= s);
                    }
                },
            }
        }
        j = j + 1;
    }
    Ok(string_of(&out))
}

proof fn lemma_rewrite_skips(line: Seq<char>, files: Seq<DynHashFile>, j: nat, x: nat)
    requires
        j <= x < files.len(),
        line_matches(line, files[x as int]),
        forall|i: int| j <= i < x ==> !line_matches(line, #[trigger] files[i]),
    ensures
        rewrite_from(line, files, j) == replace_hash(line, files[x as int]),
    decreases x - j,
{
    if j < x {
        lemma_rewrite_skips(line, files, j + 1, x);
    }
}

proof fn lemma_rewrite_none(line: Seq<char>, files: Seq<DynHashFile>, j: nat)
    requires
        forall|i: int| 0 <= i < files.len() ==> !line_matches(line, #[trigger] files[i]),
    ensures
        rewrite_from(line, files, j) == line,
    decreases files.len() - j,
{
    if j < files.len() {
        lemma_rewrite_none(line, files, j + 1);
    }
}

/// Where line `m` refers to file `x` and to no other file, rewriting puts
/// `x`'s hash in place of the line's hash span and keeps what precedes and
/// what follows it; every line that refers to no file stays as it is.
pub proof fn lemma_hash_rewrite_locality(lines: Seq<Seq<char>>, files: Seq<DynHashFile>, m: int, x: int)
    requires
        0 <= m < lines.len(),
        0 <= x < files.len(),
        line_matches(lines[m], files[x]),
        forall|j: int| 0 <= j < files.len() && j != x ==> !line_matches(lines[m], #[trigger] files[j]),
    ensures
        rewritten_lines(lines, files).len() == lines.len(),
        rewritten_lines(lines, files)[m] == replace_hash(lines[m], files[x]),
        0 <= span_start(lines[m], files[x]) <= span_end(lines[m], files[x]) <= lines[m].len(),
        rewritten_lines(lines, files)[m] == lines[m].subrange(0, span_start(lines[m], files[x]))
            + files[x].hash@ + lines[m].subrange(span_end(lines[m], files[x]), lines[m].len() as int),
        forall|k: int|
            0 <= k < lines.len() && (forall|j: int|
                0 <= j < files.len() ==> !line_matches(lines[k], #[trigger] files[j]))
                ==> #[trigger] rewritten_lines(lines, files)[k] == lines[k],
{
    lemma_rewrite_skips(lines[m], files, 0, x as nat);
    crate::text::lemma_find_from_bounds(lines[m], dash_marker(files[x]), 0);
    assert forall|k: int|
        0 <= k < lines.len() && (forall|j: int|
            0 <= j < files.len() ==> !line_matches(lines[k], #[trigger] files[j]))
            implies #[trigger] rewritten_lines(lines, files)[k] == lines[k] by {
        lemma_rewrite_none(lines[k], files, 0);
    }
}

pub proof fn lemma_route_concat(x: Seq<char>, y: Seq<char>, f: DynHashFile)
    requires
        ends_line(x),
    ensures
        route_in(x + y, f) <==> route_in(x, f) || route_in(y, f),
{
    lemma_lines_concat(x, y);
    let lx = lines_of(x);
    let ly = lines_of(y);
    if route_in(x + y, f) {
        let k = choose|k: int|
            0 <= k < lines_of(x + y).len() && contains(#[trigger] lines_of(x + y)[k], route_open(f.prefix@))
                && contains(lines_of(x + y)[k], route_close(f.ext@));
        if k < lx.len() {
            assert(lines_of(x + y)[k] == lx[k]);
        } else {
            assert(lines_of(x + y)[k] == ly[k - lx.len()]);
        }
    }
    if route_in(x, f) {
        let k = choose|k: int|
            0 <= k < lx.len() && contains(#[trigger] lx[k], route_open(f.prefix@)) && contains(
                lx[k],
                route_close(f.ext@),
            );
        assert(lines_of(x + y)[k] == lx[k]);
    }
    if route_in(y, f) {
        let k = choose|k: int|
            0 <= k < ly.len() && contains(#[trigger] ly[k], route_open(f.prefix@)) && contains(
                ly[k],
                route_close(f.ext@),
            );
        assert(lines_of(x + y)[k + lx.len()] == ly[k]);
    }
}

pub proof fn lemma_blocks_end_line(fs: Seq<DynHashFile>, err: Seq<char>)
    ensures
        ends_line(blocks(fs, err)),
{
    reveal_strlit("}\n");
    if fs.len() > 0 {
        let b = route_block(fs.last(), err);
        assert(b.last() == '\n');
        assert((blocks(fs.drop_last(), err) + b).last() == b.last());
    }
}

pub proof fn lemma_blocks_route(fs: Seq<DynHashFile>, err: Seq<char>, f: DynHashFile)
    requires
        route_in(blocks(fs, err), f),
    ensures
        exists|k: int| 0 <= k < fs.len() && route_in(route_block(#[trigger] fs[k], err), f),
    decreases fs.len(),
{
    if fs.len() == 0 {
        assert(lines_of(blocks(fs, err)) =~= Seq::<Seq<char>>::empty());
    } else {
        let rest = fs.drop_last();
        lemma_blocks_end_line(rest, err);
        lemma_route_concat(blocks(rest, err), route_block(fs.last(), err), f);
        if route_in(blocks(rest, err), f) {
            lemma_blocks_route(rest, err, f);
            let k = choose|k: int| 0 <= k < rest.len() && route_in(route_block(#[trigger] rest[k], err), f);
            assert(fs[k] == rest[k]);
        } else {
            assert(fs[fs.len() - 1] == fs.last());
        }
    }
}

pub proof fn lemma_synthesized_from_files(body: Seq<char>, files: Seq<DynHashFile>, err: Seq<char>, n: nat)
    requires
        n <= files.len(),
    ensures
        forall|k: int|
            0 <= k < synthesized(body, files, err, n).len() ==> exists|i: int|
                0 <= i < n && #[trigger] synthesized(body, files, err, n)[k] == files[i],
    decreases n,
{
    if n > 0 {
        lemma_synthesized_from_files(body, files, err, (n - 1) as nat);
        let s = synthesized(body, files, err, (n - 1) as nat);
        assert forall|k: int| 0 <= k < synthesized(body, files, err, n).len() implies exists|i: int|
            0 <= i < n && #[trigger] synthesized(body, files, err, n)[k] == files[i] by {
            if k < s.len() {
                assert(synthesized(body, files, err, n)[k] == s[k]);
                let i = choose|i: int| 0 <= i < n - 1 && #[trigger] s[k] == files[i];
                assert(synthesized(body, files, err, n)[k] == files[i]);
            } else {
                assert(synthesized(body, files, err, n)[k] == files[n - 1]);
            }
        }
    }
}

/// How many of the files have the given name.
pub open spec fn count_named(fs: Seq<DynHashFile>, name: Seq<char>) -> nat
    decreases fs.len(),
{
    if fs.len() == 0 {
        0
    } else {
        count_named(fs.drop_last(), name) + if fs.last().filename@ == name { 1nat } else { 0nat }
    }
}

proof fn lemma_count_synthesized(body: Seq<char>, files: Seq<DynHashFile>, err: Seq<char>, j: int, n: nat)
    requires
        0 <= j < files.len(),
        n <= files.len(),
        ends_line(body),
        !route_in(body, files[j]),
        forall|i: int| 0 <= i < files.len() && i != j ==> files[i].filename@ != (#[trigger] files[j]).filename@,
        forall|i: int|
            0 <= i < files.len() && i != j ==> !route_in(route_block(#[trigger] files[i], err), files[j]),
    ensures
        count_named(synthesized(body, files, err, n), files[j].filename@) == if n > j { 1nat } else { 0nat },
    decreases n,
{
    if n > 0 {
        let m = (n - 1) as nat;
        lemma_count_synthesized(body, files, err, j, m);
        let s = synthesized(body, files, err, m);
        if m == j {
            lemma_blocks_end_line(s, err);
            lemma_route_concat(body, blocks(s, err), files[j]);
            if route_in(blocks(s, err), files[j]) {
                lemma_blocks_route(s, err, files[j]);
                let k = choose|k: int| 0 <= k < s.len() && route_in(route_block(#[trigger] s[k], err), files[j]);
                lemma_synthesized_from_files(body, files, err, m);
                let i = choose|i: int| 0 <= i < m && #[trigger] s[k] == files[i];
                assert(false);
            }
            assert(s.push(files[j]).drop_last() =~= s);
        } else {
            if !route_in(body + blocks(s, err), files[m as int]) {
                assert(s.push(files[m as int]).drop_last() =~= s);
            }
        }
    }
}

/// Where file `j` has no route in the rewritten text, exactly one block
/// is appended for it: none other of the files has its name, and no
/// block of another file declares its route.
pub proof fn lemma_synthesis_complete(text: Seq<char>, files: Seq<DynHashFile>, err: Seq<char>, j: int)
    requires
        0 <= j < files.len(),
        !route_in(body_of(lines_of(text), files), files[j]),
        forall|i: int| 0 <= i < files.len() && i != j ==> files[i].filename@ != (#[trigger] files[j]).filename@,
        forall|i: int|
            0 <= i < files.len() && i != j ==> !route_in(route_block(#[trigger] files[i], err), files[j]),
    ensures
        count_named(
            synthesized(body_of(lines_of(text), files), files, err, files.len()),
            files[j].filename@,
        ) == 1,
{
    let ls = rewritten_lines(lines_of(text), files);
    if ls.len() > 0 {
        assert(join_lines(ls).last() == '\n');
    }
    lemma_count_synthesized(body_of(lines_of(text), files), files, err, j, files.len());
}

/// With no import of an error type, reconciling fails as soon as some
/// file has no route in the rewritten text.
pub proof fn lemma_missing_error_name(text: Seq<char>, files: Seq<DynHashFile>)
    requires
        error_name_of(lines_of(text)) is None,
        needs_synthesis(body_of(lines_of(text), files), files),
    ensures
        reconciled(text, files) is None,
{
}

} // verus!
