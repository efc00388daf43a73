//! Plain files are written as they are spelled.

use vstd::prelude::*;

use crate::ast::{pieces_text, repeated, EvalStringView, PieceView};
use crate::code::Cursor;
use crate::plain::{
    breaks, joined, part_ok, part_text, parts_ok, paths_ok, piece_is, pieces_are, spaces, word_is,
    word_ok, word_text, words_are, Part,
};
use crate::plain_file::{
    bodies_are, bodies_ok, bodies_text, file_ok, file_text, for_line, item_is, item_ok, item_text,
    law_plain_file_is_read, statements_are, statements_ok, statements_text, PlainBody, PlainFile,
    PlainItem,
};
use crate::plain_stmt::{
    bind_is, bind_line, bind_ok, bind_text, binds_are, binds_ok, binds_text, build_is, build_line,
    build_ok, gap_is, gap_text, is_sign, let_is, let_line, remark_is, remark_text, remarks_are,
    remarks_ok, remarks_text, section_of, Bind, Gap, PlainBuild, Remark,
};
use crate::stmt::{
    bindings_text, body_text, comments_text, items_text, paths_text, section_text, BindingsView,
    BuildView, CommentView, FillerView, ForBodyItemView, ItemView, ItemsView, LetView,
};
use crate::syntax::{file, BlockKind};

verus! {

// ----------------------------------------------------------------------- lists

/// The parts of a text are written one behind the other.
pub proof fn law_parts_are_written_in_order(v: Seq<PieceView>)
    requires
        v.len() > 0,
    ensures
        pieces_text(v) == v[0].text() + pieces_text(v.skip(1)),
    decreases v.len(),
{
    if v.len() == 1 {
        assert(v.drop_last() =~= seq![]);
        assert(v.skip(1) =~= seq![]);
        assert(pieces_text(v) =~= v[0].text() + pieces_text(v.skip(1)));
    } else {
        law_parts_are_written_in_order(v.drop_last());
        assert(v.drop_last().skip(1) =~= v.skip(1).drop_last());
        assert(pieces_text(v) =~= v[0].text() + pieces_text(v.skip(1)));
    }
}

/// Comments are written one behind the other.
pub proof fn law_comments_are_written_in_order(v: Seq<CommentView>)
    requires
        v.len() > 0,
    ensures
        comments_text(v) == v[0].text() + comments_text(v.skip(1)),
    decreases v.len(),
{
    if v.len() == 1 {
        assert(v.drop_last() =~= seq![]);
        assert(v.skip(1) =~= seq![]);
        assert(comments_text(v) =~= v[0].text() + comments_text(v.skip(1)));
    } else {
        law_comments_are_written_in_order(v.drop_last());
        assert(v.drop_last().skip(1) =~= v.skip(1).drop_last());
        assert(comments_text(v) =~= v[0].text() + comments_text(v.skip(1)));
    }
}

/// Bindings are written one behind the other, each behind the lines before it.
pub proof fn law_bindings_are_written_in_order(v: BindingsView)
    requires
        v.len() > 0,
    ensures
        bindings_text(v) == v[0].0.text() + v[0].1.text() + bindings_text(v.skip(1)),
    decreases v.len(),
{
    if v.len() == 1 {
        assert(v.drop_last() =~= seq![]);
        assert(v.skip(1) =~= seq![]);
        assert(bindings_text(v) =~= v[0].0.text() + v[0].1.text() + bindings_text(v.skip(1)));
    } else {
        law_bindings_are_written_in_order(v.drop_last());
        assert(v.drop_last().skip(1) =~= v.skip(1).drop_last());
        assert(bindings_text(v) =~= v[0].0.text() + v[0].1.text() + bindings_text(v.skip(1)));
    }
}

/// Paths are written one behind the other, each behind a space.
pub proof fn law_paths_are_written_in_order(v: Seq<EvalStringView>)
    requires
        v.len() > 0,
    ensures
        paths_text(v) == seq![' '] + v[0].text() + paths_text(v.skip(1)),
    decreases v.len(),
{
    reveal_strlit(" ");
    assert(" "@ =~= seq![' ']);
    if v.len() == 1 {
        assert(v.drop_last() =~= seq![]);
        assert(v.skip(1) =~= seq![]);
        assert(paths_text(v) =~= seq![' '] + v[0].text() + paths_text(v.skip(1)));
    } else {
        law_paths_are_written_in_order(v.drop_last());
        assert(v.drop_last().skip(1) =~= v.skip(1).drop_last());
        assert(paths_text(v) =~= seq![' '] + v[0].text() + paths_text(v.skip(1)));
    }
}

/// The statements of a body are written one behind the other.
pub proof fn law_bodies_are_written_in_order(v: Seq<ForBodyItemView>)
    requires
        v.len() > 0,
    ensures
        body_text(v) == v[0].text() + body_text(v.skip(1)),
    decreases v.len(),
{
    if v.len() == 1 {
        assert(v.drop_last() =~= seq![]);
        assert(v.skip(1) =~= seq![]);
        assert(body_text(v) =~= v[0].text() + body_text(v.skip(1)));
    } else {
        law_bodies_are_written_in_order(v.drop_last());
        assert(v.drop_last().skip(1) =~= v.skip(1).drop_last());
        assert(body_text(v) =~= v[0].text() + body_text(v.skip(1)));
    }
}

/// The statements of a file are written one behind the other, each before the lines
/// behind it.
pub proof fn law_statements_are_written_in_order(v: ItemsView)
    requires
        v.len() > 0,
    ensures
        items_text(v) == v[0].0.text() + v[0].1.text() + items_text(v.skip(1)),
    decreases v.len(),
{
    if v.len() == 1 {
        assert(v.drop_last() =~= seq![]);
        assert(v.skip(1) =~= seq![]);
        assert(items_text(v) =~= v[0].0.text() + v[0].1.text() + items_text(v.skip(1)));
    } else {
        law_statements_are_written_in_order(v.drop_last());
        assert(v.drop_last().skip(1) =~= v.skip(1).drop_last());
        assert(items_text(v) =~= v[0].0.text() + v[0].1.text() + items_text(v.skip(1)));
    }
}

/// A section with one more path ends with a space and that path. One without paths is not
/// written at all.
pub proof fn law_sections_keep_all_paths(
    sign: Seq<char>,
    ps: Seq<EvalStringView>,
    p: EvalStringView,
)
    ensures
        section_text(sign, seq![]) == Seq::<char>::empty(),
        section_text(sign, seq![p]) == sign + seq![' '] + p.text(),
        ps.len() > 0 ==> section_text(sign, ps.push(p)) == section_text(sign, ps) + seq![' ']
            + p.text(),
{
    reveal_strlit(" ");
    assert(" "@ =~= seq![' ']);
    assert(ps.push(p).drop_last() =~= ps);
    assert(seq![p].drop_last() =~= seq![]);
    law_paths_are_written_in_order(seq![p]);
    assert(seq![p].skip(1) =~= seq![]);
    assert(paths_text(seq![p]) =~= seq![' '] + p.text());
    assert(section_text(sign, seq![p]) =~= sign + seq![' '] + p.text());
    if ps.len() > 0 {
        assert(section_text(sign, ps.push(p)) =~= section_text(sign, ps) + seq![' '] + p.text());
    }
}

// ----------------------------------------------------------------------- words

proof fn lemma_write_part(v: PieceView, p: Part)
    requires
        piece_is(v, p),
        part_ok(p, false) || part_ok(p, true),
    ensures
        v.text() == part_text(p),
{
    reveal_strlit("$");
    reveal_strlit("|");
    reveal_strlit(":");
    reveal_strlit("${");
    reveal_strlit("}");
    reveal_strlit("$\"");
    reveal_strlit("\"");
    assert("$"@ =~= seq!['$']);
    assert("|"@ =~= seq!['|']);
    assert(":"@ =~= seq![':']);
    assert("${"@ =~= seq!['$', '{']);
    assert("}"@ =~= seq!['}']);
    assert("$\""@ =~= seq!['$', '"']);
    assert("\""@ =~= seq!['"']);
    match p {
        Part::Lit(s) => {
            assert(s[0] != '$');
        },
        _ => {},
    }
    assert(v.text() =~= part_text(p));
}

proof fn lemma_write_word(v: Seq<PieceView>, w: Seq<Part>, path: bool)
    requires
        pieces_are(v, w),
        parts_ok(w, path),
    ensures
        pieces_text(v) == word_text(w),
    decreases w.len(),
{
    if w.len() > 0 {
        law_parts_are_written_in_order(v);
        assert(piece_is(v[0], w[0]) && part_ok(w[0], path));
        lemma_write_part(v[0], w[0]);
        assert forall|i: int| 0 <= i < w.skip(1).len() implies piece_is(
            #[trigger] v.skip(1)[i],
            w.skip(1)[i],
        ) by {
            assert(piece_is(v[i + 1], w[i + 1]));
        }
        let w1 = w.skip(1);
        assert forall|i: int| 0 <= i < w1.len() implies part_ok(#[trigger] w1[i], path) by {
            assert(part_ok(w[i + 1], path));
        }
        assert forall|i: int| 0 <= i < w1.len() - 1 implies !(#[trigger] w1[i] is Lit && w1[i
            + 1] is Lit) by {
            assert(w1[i] == w[i + 1] && w1[i + 1] == w[i + 2]);
        }
        lemma_write_word(v.skip(1), w1, path);
    }
}

proof fn lemma_write_paths(v: Seq<EvalStringView>, ws: Seq<Seq<Part>>)
    requires
        words_are(v, ws),
        paths_ok(ws),
    ensures
        paths_text(v) == joined(ws),
    decreases ws.len(),
{
    if ws.len() > 0 {
        law_paths_are_written_in_order(v);
        assert(word_is(v[0], ws[0]) && word_ok(ws[0], true));
        lemma_write_word(v[0].pieces, ws[0], true);
        assert forall|i: int| 0 <= i < ws.skip(1).len() implies word_is(
            #[trigger] v.skip(1)[i],
            ws.skip(1)[i],
        ) by {
            assert(word_is(v[i + 1], ws[i + 1]));
        }
        assert forall|i: int| 0 <= i < ws.skip(1).len() implies word_ok(
            #[trigger] ws.skip(1)[i],
            true,
        ) by {
            assert(word_ok(ws[i + 1], true));
        }
        lemma_write_paths(v.skip(1), ws.skip(1));
    }
}

// ------------------------------------------------------------------ statements

proof fn lemma_write_gap(v: FillerView, g: Gap)
    requires
        gap_is(v, g),
    ensures
        v.text() == gap_text(g),
{
    lemma_write_remarks(v.comments, g.remarks);
    assert(repeated('\n', g.feeds) =~= breaks(g.feeds));
}

proof fn lemma_write_remarks(v: Seq<CommentView>, rs: Seq<Remark>)
    requires
        remarks_are(v, rs),
    ensures
        comments_text(v) == remarks_text(rs),
    decreases rs.len(),
{
    if rs.len() > 0 {
        law_comments_are_written_in_order(v);
        assert(remark_is(v[0], rs[0]));
        assert(repeated('\n', rs[0].feeds) =~= breaks(rs[0].feeds));
        assert(v[0].text() =~= remark_text(rs[0]));
        assert forall|i: int| 0 <= i < rs.skip(1).len() implies remark_is(
            #[trigger] v.skip(1)[i],
            rs.skip(1)[i],
        ) by {
            assert(remark_is(v[i + 1], rs[i + 1]));
        }
        lemma_write_remarks(v.skip(1), rs.skip(1));
    }
}

proof fn lemma_write_let(v: LetView, name: Seq<char>, value: Seq<Part>)
    requires
        let_is(v, name, value),
        parts_ok(value, false),
    ensures
        is_sign(name) ==> v.text() == name + word_text(value) + seq!['\n'],
        !is_sign(name) ==> v.text() == let_line(name, value),
{
    reveal_strlit("@");
    reveal_strlit("!");
    reveal_strlit(" = ");
    reveal_strlit("\n");
    assert("@"@ =~= seq!['@']);
    assert("!"@ =~= seq!['!']);
    assert(" = "@ =~= seq![' ', '=', ' ']);
    assert("\n"@ =~= seq!['\n']);
    lemma_write_word(v.value.pieces, value, false);
    if is_sign(name) {
        assert(v.text() =~= name + word_text(value) + seq!['\n']);
    }
}

proof fn lemma_write_binds(v: BindingsView, bs: Seq<Bind>, kind: BlockKind, n: nat)
    requires
        binds_are(v, bs),
        binds_ok(bs, kind, n),
    ensures
        bindings_text(v) == binds_text(bs),
    decreases bs.len(),
{
    if bs.len() > 0 {
        law_bindings_are_written_in_order(v);
        assert(bind_is(v[0], bs[0]) && bind_ok(bs[0], kind, n));
        lemma_write_gap(v[0].0, bs[0].gap);
        lemma_write_let(v[0].1.let_stmt, bs[0].name, bs[0].value);
        assert(repeated(' ', bs[0].indent) =~= spaces(bs[0].indent));
        assert(v[0].1.text() == spaces(bs[0].indent) + bind_line(bs[0]));
        assert forall|i: int| 0 <= i < bs.skip(1).len() implies bind_is(
            #[trigger] v.skip(1)[i],
            bs.skip(1)[i],
        ) by {
            assert(bind_is(v[i + 1], bs[i + 1]));
        }
        assert forall|i: int| 0 <= i < bs.skip(1).len() implies bind_ok(
            #[trigger] bs.skip(1)[i],
            kind,
            n,
        ) by {
            assert(bind_ok(bs[i + 1], kind, n));
        }
        lemma_write_binds(v.skip(1), bs.skip(1), kind, n);
        assert(bindings_text(v) =~= bind_text(bs[0]) + binds_text(bs.skip(1)));
    }
}

proof fn lemma_write_section(v: Seq<EvalStringView>, ws: Seq<Seq<Part>>, sign: Seq<char>)
    requires
        words_are(v, ws),
        paths_ok(ws),
    ensures
        section_text(seq![' '] + sign, v) == section_of(sign, ws),
{
    lemma_write_paths(v, ws);
    assert(section_text(seq![' '] + sign, v) =~= section_of(sign, ws));
}

/// How the ends of texts that are put together can be grouped.
proof fn lemma_grouped(a: Seq<char>, b: Seq<char>, c: Seq<char>)
    ensures
        a + b + c == a + (b + c),
{
    assert(a + b + c =~= a + (b + c));
}

/// The words and signs that statements are written with.
proof fn lemma_signs()
    ensures
        "build"@ == seq!['b', 'u', 'i', 'l', 'd'],
        " |"@ == seq![' '] + seq!['|'],
        ": "@ == seq![':', ' '],
        " ||"@ == seq![' '] + seq!['|', '|'],
        " |@"@ == seq![' '] + seq!['|', '@'],
        "\n"@ == seq!['\n'],
        "rule "@ == seq!['r', 'u', 'l', 'e'] + seq![' '],
        "default"@ == seq!['d', 'e', 'f', 'a', 'u', 'l', 't'],
        "pool "@ == seq!['p', 'o', 'o', 'l'] + seq![' '],
        "for "@ == seq!['f', 'o', 'r'] + seq![' '],
        " in "@ == seq![' ', 'i', 'n', ' '],
{
    reveal_strlit("build");
    reveal_strlit(" |");
    reveal_strlit(": ");
    reveal_strlit(" ||");
    reveal_strlit(" |@");
    reveal_strlit("\n");
    reveal_strlit("rule ");
    reveal_strlit("default");
    reveal_strlit("pool ");
    reveal_strlit("for ");
    reveal_strlit(" in ");
    assert("build"@ =~= seq!['b', 'u', 'i', 'l', 'd']);
    assert(" |"@ =~= seq![' '] + seq!['|']);
    assert(": "@ =~= seq![':', ' ']);
    assert(" ||"@ =~= seq![' '] + seq!['|', '|']);
    assert(" |@"@ =~= seq![' '] + seq!['|', '@']);
    assert("\n"@ =~= seq!['\n']);
    assert("rule "@ =~= seq!['r', 'u', 'l', 'e'] + seq![' ']);
    assert("default"@ =~= seq!['d', 'e', 'f', 'a', 'u', 'l', 't']);
    assert("pool "@ =~= seq!['p', 'o', 'o', 'l'] + seq![' ']);
    assert("for "@ =~= seq!['f', 'o', 'r'] + seq![' ']);
    assert(" in "@ =~= seq![' ', 'i', 'n', ' ']);
}

/// The parts of the line of a `build`, put together from the left.
proof fn lemma_build_grouped(
    word: Seq<char>,
    outs: Seq<char>,
    implicit_outs: Seq<char>,
    colon: Seq<char>,
    rule: Seq<char>,
    deps: Seq<char>,
    implicit: Seq<char>,
    order: Seq<char>,
    valid: Seq<char>,
    feed: Seq<char>,
    binds: Seq<char>,
)
    ensures
        word + outs + implicit_outs + colon + rule + deps + implicit + order + valid + feed + binds
            == word + ((outs + implicit_outs + colon + rule + deps + implicit + order + valid
            + feed) + binds),
{
    let p1 = outs + implicit_outs;
    let p2 = p1 + colon;
    let p3 = p2 + rule;
    let p4 = p3 + deps;
    let p5 = p4 + implicit;
    let p6 = p5 + order;
    let p7 = p6 + valid;
    let p8 = p7 + feed;
    lemma_grouped(word, outs, implicit_outs);
    lemma_grouped(word, p1, colon);
    lemma_grouped(word, p2, rule);
    lemma_grouped(word, p3, deps);
    lemma_grouped(word, p4, implicit);
    lemma_grouped(word, p5, order);
    lemma_grouped(word, p6, valid);
    lemma_grouped(word, p7, feed);
    lemma_grouped(word, p8, binds);
}

pub proof fn lemma_write_build(v: BuildView, b: PlainBuild, n: nat)
    requires
        build_is(v, b),
        build_ok(b, n),
    ensures
        v.text() == seq!['b', 'u', 'i', 'l', 'd'] + (build_line(b) + binds_text(b.binds)),
{
    lemma_signs();
    lemma_write_paths(v.outs, b.outs);
    lemma_write_section(v.implicit_outs, b.implicit_outs, seq!['|']);
    lemma_write_paths(v.deps, b.deps);
    lemma_write_section(v.implicit_deps, b.implicit_deps, seq!['|']);
    lemma_write_section(v.order_only_deps, b.order_only_deps, seq!['|', '|']);
    lemma_write_section(v.validations, b.validations, seq!['|', '@']);
    lemma_write_binds(v.bindings, b.binds, BlockKind::Build, n);
    lemma_build_grouped(
        seq!['b', 'u', 'i', 'l', 'd'],
        joined(b.outs),
        section_of(seq!['|'], b.implicit_outs),
        seq![':', ' '],
        b.rule,
        joined(b.deps),
        section_of(seq!['|'], b.implicit_deps),
        section_of(seq!['|', '|'], b.order_only_deps),
        section_of(seq!['|', '@'], b.validations),
        seq!['\n'],
        binds_text(b.binds),
    );
}

proof fn lemma_named_grouped(
    word: Seq<char>,
    space: Seq<char>,
    name: Seq<char>,
    feed: Seq<char>,
    rest: Seq<char>,
)
    ensures
        (word + space) + name + feed + rest == word + (space + name + feed + rest),
{
    lemma_grouped(word, space, name);
    lemma_grouped(word, space + name, feed);
    lemma_grouped(word, space + name + feed, rest);
}

proof fn lemma_write_item(v: ItemView, i: PlainItem, n: nat)
    requires
        item_is(v, i),
        item_ok(i, n),
    ensures
        v.text() == item_text(i),
    decreases i,
{
    lemma_signs();
    match i {
        PlainItem::Let(name, value) => {
            assert(crate::plain::name_code(name[0]));
            lemma_write_let(v->Let_0, name, value);
        },
        PlainItem::Rule(name, binds) => {
            lemma_write_binds(v->Rule_0.bindings, binds, BlockKind::Rule, n);
            lemma_named_grouped(
                seq!['r', 'u', 'l', 'e'],
                seq![' '],
                name,
                seq!['\n'],
                binds_text(binds),
            );
        },
        PlainItem::Build(b) => {
            lemma_write_build(v->Build_0, b, n);
        },
        PlainItem::Default(ws) => {
            lemma_write_paths(v->Default_0.outs, ws);
            lemma_grouped(seq!['d', 'e', 'f', 'a', 'u', 'l', 't'], joined(ws), seq!['\n']);
        },
        PlainItem::Pool(name, binds) => {
            lemma_write_binds(v->Pool_0.bindings, binds, BlockKind::Pool, n);
            lemma_named_grouped(
                seq!['p', 'o', 'o', 'l'],
                seq![' '],
                name,
                seq!['\n'],
                binds_text(binds),
            );
        },
        PlainItem::For(var, values, body) => {
            let f = v->For_0;
            lemma_write_word(f.values.pieces, values, false);
            lemma_write_bodies(f.items, body, n);
            let word = seq!['f', 'o', 'r'];
            let head = seq![' '] + var;
            let link = head + seq![' ', 'i', 'n', ' '];
            let line = link + word_text(values);
            lemma_grouped(word, seq![' '], var);
            lemma_grouped(word, head, seq![' ', 'i', 'n', ' ']);
            lemma_grouped(word, link, word_text(values));
            lemma_grouped(word, line, seq!['\n']);
            lemma_grouped(word, for_line(var, values), bodies_text(body));
            assert(f.text() == word + (for_line(var, values) + bodies_text(body)));
        },
    }
}

proof fn lemma_write_bodies(v: Seq<ForBodyItemView>, bs: Seq<PlainBody>, n: nat)
    requires
        bodies_are(v, bs),
        bodies_ok(bs, n),
    ensures
        body_text(v) == bodies_text(bs),
    decreases bs,
{
    if bs.len() > 0 {
        law_bodies_are_written_in_order(v);
        lemma_write_gap(v[0].filler, bs[0].gap);
        lemma_write_item(v[0].item, bs[0].item, bs[0].indent);
        assert(repeated(' ', bs[0].indent) =~= spaces(bs[0].indent));
        lemma_write_bodies(v.skip(1), bs.subrange(1, bs.len() as int), n);
        assert(v[0].text() =~= gap_text(bs[0].gap) + spaces(bs[0].indent) + item_text(
            bs[0].item,
        ));
    }
}

proof fn lemma_write_statements(v: ItemsView, xs: Seq<(PlainItem, Gap)>)
    requires
        statements_are(v, xs),
        statements_ok(xs),
    ensures
        items_text(v) == statements_text(xs),
    decreases xs.len(),
{
    if xs.len() > 0 {
        law_statements_are_written_in_order(v);
        assert(item_is(v[0].0, xs[0].0) && item_ok(xs[0].0, 0));
        lemma_write_item(v[0].0, xs[0].0, 0);
        lemma_write_gap(v[0].1, xs[0].1);
        let v1 = v.skip(1);
        let xs1 = xs.skip(1);
        assert forall|i: int| 0 <= i < xs1.len() implies item_is((#[trigger] v1[i]).0, xs1[i].0)
            && gap_is(v1[i].1, xs1[i].1) by {
            assert(v1[i] == v[i + 1] && xs1[i] == xs[i + 1]);
        }
        assert forall|i: int| 0 <= i < xs1.len() implies item_ok((#[trigger] xs1[i]).0, 0)
            && remarks_ok(xs1[i].1.remarks) by {
            assert(xs1[i] == xs[i + 1]);
        }
        lemma_write_statements(v1, xs1);
    }
}

/// A plain file is written as it was read.
pub proof fn law_plain_file_is_written_as_read(c: Cursor, f: PlainFile)
    requires
        c.wf(),
        c.rest() == file_text(f),
        file_ok(f),
    ensures
        file(c).value.text() == c.rest(),
{
    law_plain_file_is_read(c, f);
    let v = file(c).value;
    lemma_write_gap(v.opening_filler, f.opening);
    lemma_write_statements(v.items, f.items);
}

} // verus!
