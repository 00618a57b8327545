use vstd::prelude::*;
use crate::parse::DynHashFile;
use crate::routes::{
    blocks, body_of, error_import, error_name_from, error_name_of, handler_line,
    join_lines, lemma_blocks_end_line, lemma_route_concat, needs_synthesis, reconciled,
    rewrite_from, rewrite_line, rewritten_lines, route_block, route_close, route_in,
    route_open, serve_line, synthesized, span_end, span_start, dash_marker,
    lemma_synthesized_from_files,
};
use crate::text::{
    contains, ends_line, find_from, first_nl, lemma_find_from_bounds, lemma_first_nl,
    lemma_first_nl_bounds, lemma_lines_concat, lines_of, occurs_at, remove_all, strip_cr,
};

verus! {

/// `c` does not occur in `s`.
pub open spec fn free_of(s: Seq<char>, c: char) -> bool {
    forall|j: int| 0 <= j < s.len() ==> s[j] != c
}

proof fn lemma_free_concat(a: Seq<char>, b: Seq<char>, c: char)
    requires
        free_of(a, c),
        free_of(b, c),
    ensures
        free_of(a + b, c),
{
    assert forall|j: int| 0 <= j < (a + b).len() implies (a + b)[j] != c by {
        if j >= a.len() {
            assert((a + b)[j] == b[j - a.len()]);
        }
    }
}

proof fn lemma_free_sub(a: Seq<char>, i: int, k: int, c: char)
    requires
        free_of(a, c),
        0 <= i <= k <= a.len(),
    ensures
        free_of(a.subrange(i, k), c),
{
    assert forall|j: int| 0 <= j < k - i implies a.subrange(i, k)[j] != c by {
        assert(a.subrange(i, k)[j] == a[i + j]);
    }
}

proof fn lemma_rewrite_free(line: Seq<char>, files: Seq<DynHashFile>, j: nat, c: char)
    requires
        free_of(line, c),
        forall|i: int| 0 <= i < files.len() ==> free_of((#[trigger] files[i]).hash@, c),
    ensures
        free_of(rewrite_from(line, files, j), c),
    decreases files.len() - j,
{
    if j < files.len() {
        let f = files[j as int];
        if crate::routes::line_matches(line, f) {
            lemma_find_from_bounds(line, dash_marker(f), 0);
            let s = span_start(line, f);
            let e = span_end(line, f);
            lemma_free_sub(line, 0, s, c);
            lemma_free_sub(line, e, line.len() as int, c);
            lemma_free_concat(line.subrange(0, s), f.hash@, c);
            lemma_free_concat(line.subrange(0, s) + f.hash@, line.subrange(e, line.len() as int), c);
        } else {
            lemma_rewrite_free(line, files, j + 1, c);
        }
    }
}

proof fn lemma_lines_one(l: Seq<char>)
    requires
        free_of(l, '\n'),
        free_of(l, '\r'),
    ensures
        lines_of(l + seq!['\n']) == seq![l],
{
    let s = l + seq!['\n'];
    lemma_first_nl(s, l.len());
    assert(s.subrange(0, l.len() as int) =~= l);
    assert(s.subrange(l.len() + 1 as int, s.len() as int) =~= Seq::<char>::empty());
    assert(l.len() > 0 ==> l.last() == l[l.len() - 1]);
    assert(strip_cr(l) == l);
    assert(lines_of(Seq::<char>::empty()) == Seq::<Seq<char>>::empty());
    assert(lines_of(s) == seq![strip_cr(s.subrange(0, l.len() as int))] + lines_of(
        s.subrange(l.len() + 1 as int, s.len() as int),
    ));
    assert(lines_of(s) =~= seq![l]);
}

proof fn lemma_join_ends_line(ls: Seq<Seq<char>>)
    ensures
        ends_line(join_lines(ls)),
{
}

proof fn lemma_lines_of_join(ls: Seq<Seq<char>>)
    requires
        forall|k: int| 0 <= k < ls.len() ==> free_of(#[trigger] ls[k], '\n') && free_of(ls[k], '\r'),
    ensures
        lines_of(join_lines(ls)) == ls,
    decreases ls.len(),
{
    if ls.len() == 0 {
        assert(lines_of(join_lines(ls)) =~= ls);
    } else {
        let dl = ls.drop_last();
        assert forall|k: int| 0 <= k < dl.len() implies free_of(#[trigger] dl[k], '\n') && free_of(dl[k], '\r') by {
            assert(dl[k] == ls[k]);
        }
        lemma_lines_of_join(dl);
        assert(ls.last() == ls[ls.len() - 1]);
        lemma_lines_one(ls.last());
        lemma_join_ends_line(dl);
        lemma_lines_concat(join_lines(dl), ls.last() + seq!['\n']);
        assert(join_lines(ls) =~= join_lines(dl) + (ls.last() + seq!['\n']));
        assert(dl + seq![ls.last()] =~= ls);
    }
}

proof fn lemma_join_concat(a: Seq<Seq<char>>, b: Seq<Seq<char>>)
    ensures
        join_lines(a + b) == join_lines(a) + join_lines(b),
    decreases b.len(),
{
    if b.len() == 0 {
        assert(a + b =~= a);
        assert(join_lines(a) + join_lines(b) =~= join_lines(a));
    } else {
        lemma_join_concat(a, b.drop_last());
        assert((a + b).drop_last() =~= a + b.drop_last());
        assert((a + b).last() == b.last());
        assert(join_lines(a + b) =~= join_lines(a) + join_lines(b));
    }
}

proof fn lemma_join_lines_of(s: Seq<char>)
    requires
        ends_line(s),
        free_of(s, '\r'),
    ensures
        join_lines(lines_of(s)) == s,
    decreases s.len(),
{
    if s.len() == 0 {
        assert(join_lines(lines_of(s)) =~= s);
    } else {
        lemma_first_nl_bounds(s);
        let e = first_nl(s);
        if e >= s.len() {
            assert(s[s.len() - 1] == '\n');
        }
        let a = s.subrange(0, e as int);
        let rest = s.subrange(e + 1 as int, s.len() as int);
        lemma_free_sub(s, 0, e as int, '\r');
        lemma_free_sub(s, e + 1 as int, s.len() as int, '\r');
        assert(a.len() > 0 ==> a.last() == a[a.len() - 1]);
        assert(strip_cr(a) == a);
        if rest.len() > 0 {
            assert(rest.last() == s.last());
        }
        lemma_join_lines_of(rest);
        lemma_join_concat(seq![a], lines_of(rest));
        assert(seq![a].drop_last() =~= Seq::<Seq<char>>::empty());
        assert(join_lines(Seq::<Seq<char>>::empty()) == Seq::<char>::empty());
        assert(seq![a].last() == a);
        assert(join_lines(seq![a]) == join_lines(seq![a].drop_last()) + a + seq!['\n']);
        assert(join_lines(seq![a]) =~= a + seq!['\n']);
        assert(s =~= a + seq!['\n'] + rest);
    }
}

proof fn lemma_literals_free()
    ensures
        free_of("pub async fn get_"@, '\r'),
        free_of("_"@, '\r'),
        free_of("() -> Result<NamedFile, "@, '\r'),
        free_of("> {\n"@, '\r'),
        free_of("    Ok(NamedFile::open(\"src/web/dist/assets/"@, '\r'),
        free_of("\").unwrap())\n"@, '\r'),
        free_of("}\n"@, '\r'),
        free_of(seq!['\n'], '\r'),
        free_of(seq!['#', '[', 'g', 'e', 't', '(', '"'], '\r'),
        free_of(seq!['"', ')', ']'], '\r'),
        free_of(seq!['-'], '\r'),
        free_of(seq!['.'], '\r'),
{
    reveal_strlit("pub async fn get_");
    reveal_strlit("_");
    reveal_strlit("() -> Result<NamedFile, ");
    reveal_strlit("> {\n");
    reveal_strlit("    Ok(NamedFile::open(\"src/web/dist/assets/");
    reveal_strlit("\").unwrap())\n");
    reveal_strlit("}\n");
}

proof fn lemma_ends_line_concat(a: Seq<char>, b: Seq<char>)
    requires
        ends_line(a),
        ends_line(b),
    ensures
        ends_line(a + b),
{
    if b.len() == 0 {
        assert(a + b =~= a);
    } else {
        assert((a + b).last() == b.last());
    }
}

proof fn lemma_lines_free_of_nl(s: Seq<char>)
    ensures
        forall|k: int| 0 <= k < lines_of(s).len() ==> free_of(#[trigger] lines_of(s)[k], '\n'),
    decreases s.len(),
{
    if s.len() > 0 {
        lemma_first_nl_bounds(s);
        let e = first_nl(s);
        if e < s.len() {
            let rest = s.subrange(e + 1 as int, s.len() as int);
            lemma_lines_free_of_nl(rest);
            let a = s.subrange(0, e as int);
            assert(free_of(a, '\n'));
            assert(free_of(strip_cr(a), '\n')) by {
                if a.len() > 0 && a.last() == '\r' {
                    assert forall|j: int| 0 <= j < a.drop_last().len() implies a.drop_last()[j] != '\n' by {
                        assert(a.drop_last()[j] == a[j]);
                    }
                }
            }
            assert forall|k: int| 0 <= k < lines_of(s).len() implies free_of(#[trigger] lines_of(s)[k], '\n') by {
                if k > 0 {
                    assert(lines_of(s)[k] == lines_of(rest)[k - 1]);
                }
            }
        }
    }
}

proof fn lemma_join_free(ls: Seq<Seq<char>>, c: char)
    requires
        c != '\n',
        forall|k: int| 0 <= k < ls.len() ==> free_of(#[trigger] ls[k], c),
    ensures
        free_of(join_lines(ls), c),
    decreases ls.len(),
{
    if ls.len() > 0 {
        let dl = ls.drop_last();
        assert forall|k: int| 0 <= k < dl.len() implies free_of(#[trigger] dl[k], c) by {
            assert(dl[k] == ls[k]);
        }
        lemma_join_free(dl, c);
        assert(ls.last() == ls[ls.len() - 1]);
        lemma_free_concat(join_lines(dl), ls.last(), c);
        lemma_free_concat(join_lines(dl) + ls.last(), seq!['\n'], c);
    }
}

proof fn lemma_remove_all_free(s: Seq<char>, p: Seq<char>, c: char)
    requires
        free_of(s, c),
    ensures
        free_of(remove_all(s, p), c),
    decreases s.len(),
{
    if p.len() == 0 || s.len() < p.len() {
    } else if s.subrange(0, p.len() as int) == p {
        lemma_free_sub(s, p.len() as int, s.len() as int, c);
        lemma_remove_all_free(s.subrange(p.len() as int, s.len() as int), p, c);
    } else {
        lemma_free_sub(s, 1, s.len() as int, c);
        lemma_remove_all_free(s.subrange(1, s.len() as int), p, c);
        lemma_free_concat(seq![s[0]], remove_all(s.subrange(1, s.len() as int), p), c);
    }
}

proof fn lemma_error_name_free(ls: Seq<Seq<char>>, i: nat, c: char)
    requires
        forall|k: int| 0 <= k < ls.len() ==> free_of(#[trigger] ls[k], c),
    ensures
        error_name_from(ls, i) matches Some(err) ==> free_of(err, c),
    decreases ls.len() - i,
{
    if i < ls.len() {
        if contains(ls[i as int], error_import()) {
            lemma_remove_all_free(ls[i as int], error_import(), c);
            lemma_remove_all_free(remove_all(ls[i as int], error_import()), ";"@, c);
        } else {
            lemma_error_name_free(ls, i + 1, c);
        }
    }
}

/// The parts of a well formed file hold neither a newline nor a carriage return.
pub open spec fn plain_file(f: DynHashFile) -> bool {
    &&& f.wf()
    &&& free_of(f.prefix@, '\n') && free_of(f.prefix@, '\r')
    &&& free_of(f.hash@, '\n') && free_of(f.hash@, '\r')
    &&& free_of(f.ext@, '\n') && free_of(f.ext@, '\r')
}

proof fn lemma_web_route_free(f: DynHashFile, c: char)
    requires
        f.wf(),
        free_of(f.prefix@, c),
        free_of(f.hash@, c),
        free_of(f.ext@, c),
        free_of(seq!['-'], c),
        free_of(seq!['.'], c),
        free_of(seq!['#', '[', 'g', 'e', 't', '(', '"'], c),
        free_of(seq!['"', ')', ']'], c),
    ensures
        free_of(f.filename@, c),
        free_of(f.web_route@, c),
{
    lemma_free_concat(f.prefix@, seq!['-'], c);
    lemma_free_concat(f.prefix@ + seq!['-'], f.hash@, c);
    lemma_free_concat(f.prefix@ + seq!['-'] + f.hash@, seq!['.'], c);
    lemma_free_concat(f.prefix@ + seq!['-'] + f.hash@ + seq!['.'], f.ext@, c);
    lemma_free_concat(seq!['#', '[', 'g', 'e', 't', '(', '"'], f.filename@, c);
    lemma_free_concat(seq!['#', '[', 'g', 'e', 't', '(', '"'] + f.filename@, seq!['"', ')', ']'], c);
}

proof fn lemma_block_free(f: DynHashFile, err: Seq<char>)
    requires
        plain_file(f),
        free_of(err, '\r'),
    ensures
        free_of(route_block(f, err), '\r'),
{
    lemma_literals_free();
    lemma_web_route_free(f, '\r');
    let h = handler_line(f.prefix@, f.ext@, err);
    lemma_free_concat("pub async fn get_"@, f.prefix@, '\r');
    lemma_free_concat("pub async fn get_"@ + f.prefix@, "_"@, '\r');
    lemma_free_concat("pub async fn get_"@ + f.prefix@ + "_"@, f.ext@, '\r');
    lemma_free_concat("pub async fn get_"@ + f.prefix@ + "_"@ + f.ext@, "() -> Result<NamedFile, "@, '\r');
    lemma_free_concat("pub async fn get_"@ + f.prefix@ + "_"@ + f.ext@ + "() -> Result<NamedFile, "@, err, '\r');
    lemma_free_concat(
        "pub async fn get_"@ + f.prefix@ + "_"@ + f.ext@ + "() -> Result<NamedFile, "@ + err,
        "> {\n"@,
        '\r',
    );
    let sv = serve_line(f.filename@);
    lemma_free_concat("    Ok(NamedFile::open(\"src/web/dist/assets/"@, f.filename@, '\r');
    lemma_free_concat("    Ok(NamedFile::open(\"src/web/dist/assets/"@ + f.filename@, "\").unwrap())\n"@, '\r');
    lemma_free_concat(seq!['\n'], f.web_route@, '\r');
    lemma_free_concat(seq!['\n'] + f.web_route@, seq!['\n'], '\r');
    lemma_free_concat(seq!['\n'] + f.web_route@ + seq!['\n'], h, '\r');
    lemma_free_concat(seq!['\n'] + f.web_route@ + seq!['\n'] + h, sv, '\r');
    lemma_free_concat(seq!['\n'] + f.web_route@ + seq!['\n'] + h + sv, "}\n"@, '\r');
}

proof fn lemma_blocks_free(fs: Seq<DynHashFile>, err: Seq<char>)
    requires
        forall|i: int| 0 <= i < fs.len() ==> plain_file(#[trigger] fs[i]),
        free_of(err, '\r'),
    ensures
        free_of(blocks(fs, err), '\r'),
    decreases fs.len(),
{
    if fs.len() > 0 {
        let dl = fs.drop_last();
        assert forall|i: int| 0 <= i < dl.len() implies plain_file(#[trigger] dl[i]) by {
            assert(dl[i] == fs[i]);
        }
        lemma_blocks_free(dl, err);
        assert(fs.last() == fs[fs.len() - 1]);
        lemma_block_free(fs.last(), err);
        lemma_free_concat(blocks(dl, err), route_block(fs.last(), err), '\r');
    }
}

/// `l` is a line of the block of one of the files.
pub open spec fn is_block_line(fs: Seq<DynHashFile>, err: Seq<char>, l: Seq<char>) -> bool {
    exists|i: int, m: int|
        0 <= i < fs.len() && 0 <= m < lines_of(route_block(fs[i], err)).len() && l == #[trigger] lines_of(
            route_block(fs[i], err),
        )[m]
}

proof fn lemma_blocks_lines(fs: Seq<DynHashFile>, err: Seq<char>)
    ensures
        forall|k: int|
            0 <= k < lines_of(blocks(fs, err)).len() ==> is_block_line(fs, err, #[trigger] lines_of(blocks(fs, err))[k]),
    decreases fs.len(),
{
    if fs.len() == 0 {
        assert(lines_of(blocks(fs, err)) =~= Seq::<Seq<char>>::empty());
    } else {
        let dl = fs.drop_last();
        lemma_blocks_lines(dl, err);
        lemma_blocks_end_line(dl, err);
        lemma_lines_concat(blocks(dl, err), route_block(fs.last(), err));
        let la = lines_of(blocks(dl, err));
        assert forall|k: int| 0 <= k < lines_of(blocks(fs, err)).len() implies is_block_line(fs, err, #[trigger] lines_of(blocks(fs, err))[k]) by {
            if k < la.len() {
                assert(lines_of(blocks(fs, err))[k] == la[k]);
                assert(is_block_line(dl, err, la[k]));
                let (i, m) = choose|i: int, m: int|
                    0 <= i < dl.len() && 0 <= m < lines_of(route_block(dl[i], err)).len() && la[k] == #[trigger] lines_of(
                        route_block(dl[i], err),
                    )[m];
                assert(dl[i] == fs[i]);
                assert(lines_of(blocks(fs, err))[k] == lines_of(route_block(fs[i], err))[m]);
            } else {
                let i = fs.len() - 1;
                let m = k - la.len();
                assert(fs[i] == fs.last());
                assert(lines_of(blocks(fs, err))[k] == lines_of(route_block(fs[i], err))[m]);
            }
        }
    }
}

proof fn lemma_contains_at(s: Seq<char>, p: Seq<char>, i: int)
    requires
        occurs_at(s, p, i),
    ensures
        contains(s, p),
{
    lemma_find_reaches(s, p, i, 0);
}

proof fn lemma_find_reaches(s: Seq<char>, p: Seq<char>, i: int, j: nat)
    requires
        occurs_at(s, p, i),
        j <= i,
    ensures
        find_from(s, p, j) >= 0,
    decreases i - j,
{
    if j < i && !occurs_at(s, p, j as int) {
        lemma_find_reaches(s, p, i, j + 1);
    }
}

proof fn lemma_block_declares_route(f: DynHashFile, err: Seq<char>)
    requires
        plain_file(f),
    ensures
        route_in(route_block(f, err), f),
{
    reveal_strlit("#[get(\"");
    reveal_strlit("\")]");
    lemma_literals_free();
    let w = f.web_route@;
    lemma_web_route_free(f, '\n');
    lemma_web_route_free(f, '\r');
    let rest = handler_line(f.prefix@, f.ext@, err) + serve_line(f.filename@) + "}\n"@;
    let b = route_block(f, err);
    assert(b =~= seq!['\n'] + ((w + seq!['\n']) + rest));
    assert(free_of(Seq::<char>::empty(), '\n') && free_of(Seq::<char>::empty(), '\r'));
    lemma_lines_one(Seq::<char>::empty());
    assert(Seq::<char>::empty() + seq!['\n'] =~= seq!['\n']);
    lemma_lines_concat(seq!['\n'], (w + seq!['\n']) + rest);
    lemma_lines_one(w);
    lemma_lines_concat(w + seq!['\n'], rest);
    assert(lines_of(b)[1] == w);
    let open = route_open(f.prefix@);
    assert(w.subrange(0, open.len() as int) =~= open);
    lemma_contains_at(w, open, 0);
    let close = route_close(f.ext@);
    assert(w.subrange(w.len() - close.len(), w.len() as int) =~= close);
    lemma_contains_at(w, close, w.len() - close.len());
}

proof fn lemma_all_routed(body: Seq<char>, files: Seq<DynHashFile>, err: Seq<char>, n: nat)
    requires
        n <= files.len(),
        ends_line(body),
        forall|i: int| 0 <= i < files.len() ==> plain_file(#[trigger] files[i]),
    ensures
        forall|i: int| 0 <= i < n ==> route_in(body + blocks(synthesized(body, files, err, n), err), #[trigger] files[i]),
    decreases n,
{
    if n > 0 {
        let m = (n - 1) as nat;
        lemma_all_routed(body, files, err, m);
        let s = synthesized(body, files, err, m);
        let t = body + blocks(s, err);
        if !route_in(t, files[m as int]) {
            let f = files[m as int];
            assert(s.push(f).drop_last() =~= s);
            assert(s.push(f).last() == f);
            assert(body + blocks(s.push(f), err) =~= t + route_block(f, err));
            lemma_blocks_end_line(s, err);
            lemma_ends_line_concat(body, blocks(s, err));
            assert forall|i: int| 0 <= i < n implies route_in(t + route_block(f, err), #[trigger] files[i]) by {
                lemma_route_concat(t, route_block(f, err), files[i]);
                if i == m {
                    lemma_block_declares_route(f, err);
                }
            }
        }
    }
}

proof fn lemma_none_synthesized(body: Seq<char>, files: Seq<DynHashFile>, err: Seq<char>, n: nat)
    requires
        n <= files.len(),
        forall|i: int| 0 <= i < files.len() ==> route_in(body, #[trigger] files[i]),
    ensures
        synthesized(body, files, err, n) == Seq::<DynHashFile>::empty(),
    decreases n,
{
    if n > 0 {
        lemma_none_synthesized(body, files, err, (n - 1) as nat);
        assert(blocks(Seq::<DynHashFile>::empty(), err) == Seq::<char>::empty());
        assert(body + Seq::<char>::empty() =~= body);
    }
}

/// Every rewritten line of the text is left as it is by a second rewrite.
pub open spec fn lines_settled(text: Seq<char>, files: Seq<DynHashFile>) -> bool {
    forall|k: int|
        0 <= k < lines_of(text).len() ==> rewrite_line(
            #[trigger] rewritten_lines(lines_of(text), files)[k],
            files,
        ) == rewritten_lines(lines_of(text), files)[k]
}

/// Every line of every file's block is left as it is by a rewrite.
pub open spec fn blocks_settled(files: Seq<DynHashFile>, err: Seq<char>) -> bool {
    forall|i: int, m: int|
        0 <= i < files.len() && 0 <= m < lines_of(route_block(files[i], err)).len() ==> rewrite_line(
            #[trigger] lines_of(route_block(files[i], err))[m],
            files,
        ) == lines_of(route_block(files[i], err))[m]
}

/// Reconciling the result of a reconciliation with the same files gives it
/// back unchanged, where the text's lines hold no stray carriage return,
/// the files' parts hold no line break, and the lines that come out (the
/// rewritten ones and those of every block) refer to at most what they
/// were rewritten for, so that a second rewrite leaves them as they are.
pub proof fn lemma_reconcile_idempotent(text: Seq<char>, files: Seq<DynHashFile>)
    requires
        reconciled(text, files) is Some,
        forall|k: int| 0 <= k < lines_of(text).len() ==> free_of(#[trigger] lines_of(text)[k], '\r'),
        forall|i: int| 0 <= i < files.len() ==> plain_file(#[trigger] files[i]),
        lines_settled(text, files),
        error_name_of(lines_of(text)) is Some ==> blocks_settled(
            files,
            error_name_of(lines_of(text))->Some_0,
        ),
    ensures
        reconciled(reconciled(text, files)->Some_0, files) == reconciled(text, files),
{
    let ls = lines_of(text);
    let rl = rewritten_lines(ls, files);
    let body = join_lines(rl);
    assert(body == body_of(ls, files));
    let r = reconciled(text, files)->Some_0;
    lemma_lines_free_of_nl(text);
    assert forall|k: int| 0 <= k < rl.len() implies free_of(#[trigger] rl[k], '\n') && free_of(rl[k], '\r') by {
        lemma_rewrite_free(ls[k], files, 0, '\n');
        lemma_rewrite_free(ls[k], files, 0, '\r');
    }
    lemma_lines_of_join(rl);
    lemma_join_free(rl, '\r');
    lemma_join_ends_line(rl);
    assert(rewritten_lines(rl, files) =~= rl);
    match error_name_of(ls) {
        None => {
            assert(r == body);
            assert forall|i: int| 0 <= i < files.len() implies route_in(body, #[trigger] files[i]) by {
                if !route_in(body, files[i]) {
                    assert(needs_synthesis(body, files));
                }
            }
            assert(body_of(lines_of(r), files) == body);
            match error_name_of(lines_of(r)) {
                None => {},
                Some(err2) => {
                    lemma_none_synthesized(body, files, err2, files.len());
                    assert(body + blocks(Seq::<DynHashFile>::empty(), err2) =~= body);
                },
            }
        },
        Some(err) => {
            let sy = synthesized(body, files, err, files.len());
            let b = blocks(sy, err);
            assert(r == body + b);
            lemma_blocks_end_line(sy, err);
            lemma_lines_concat(body, b);
            let ls2 = lines_of(r);
            assert(ls2 == rl + lines_of(b));
            lemma_blocks_lines(sy, err);
            lemma_synthesized_from_files(body, files, err, files.len());
            assert forall|k: int| 0 <= k < ls2.len() implies rewrite_line(#[trigger] ls2[k], files) == ls2[k] by {
                if k < rl.len() {
                    assert(ls2[k] == rl[k]);
                } else {
                    assert(ls2[k] == lines_of(b)[k - rl.len()]);
                    assert(is_block_line(sy, err, lines_of(b)[k - rl.len()]));
                    let (i, m) = choose|i: int, m: int|
                        0 <= i < sy.len() && 0 <= m < lines_of(route_block(sy[i], err)).len() && lines_of(b)[k
                            - rl.len()] == #[trigger] lines_of(route_block(sy[i], err))[m];
                    let j = choose|j: int| 0 <= j < files.len() && #[trigger] sy[i] == files[j];
                    assert(lines_of(route_block(files[j], err))[m] == ls2[k]);
                }
            }
            assert(rewritten_lines(ls2, files) =~= ls2);
            lemma_error_name_free(ls, 0, '\r');
            assert forall|i: int| 0 <= i < sy.len() implies plain_file(#[trigger] sy[i]) by {
                let j = choose|j: int| 0 <= j < files.len() && #[trigger] sy[i] == files[j];
            }
            lemma_blocks_free(sy, err);
            lemma_free_concat(body, b, '\r');
            lemma_ends_line_concat(body, b);
            lemma_join_lines_of(r);
            assert(body_of(ls2, files) == r);
            lemma_all_routed(body, files, err, files.len());
            match error_name_of(ls2) {
                None => {
                    if needs_synthesis(r, files) {
                        let j = choose|j: int| 0 <= j < files.len() && !route_in(r, #[trigger] files[j]);
                        assert(false);
                    }
                },
                Some(err2) => {
                    lemma_none_synthesized(r, files, err2, files.len());
                    assert(r + blocks(Seq::<DynHashFile>::empty(), err2) =~= r);
                },
            }
        },
    }
}

} // verus!
