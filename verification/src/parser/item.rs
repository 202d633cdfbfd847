//! Parsing of items.

use vstd::prelude::*;

use crate::ast::{Identifier, Visibility};
use crate::ast::item::{Field, Function, Item, ItemKind, Module, Parameter, Span, Struct};
use crate::error::ExpectedToken;
use crate::error::library::{expected_item, spec_token_mismatch, token_mismatch};
use crate::lexer::keyword::Keyword;
use crate::lexer::punctuation::Punctuation;
use crate::lexer::{SpecLexerError, SpecToken, Token};
use crate::item_table::ItemTable;
use crate::parser::{FileParser, ParserError, PendingFile};

verus! {

broadcast use {crate::parser::FileParser::lemma_advanced_trans, crate::lexer::Lexer::lemma_token_now};

/// `item` is what the tokens of `p` begin: its visibility is public exactly when they begin
/// with `pub`, and its kind is that of the keyword after it.
pub open spec fn item_begins(p: &FileParser, item: Item) -> bool {
    let public = p.tokens(0) == Ok::<SpecToken, SpecLexerError>(SpecToken::Keyword(Keyword::Pub));
    let keyword = if public {
        p.tokens(1)
    } else {
        p.tokens(0)
    };
    &&& item.visibility == (if public {
        Visibility::Public
    } else {
        Visibility::Private
    })
    &&& keyword == Ok::<SpecToken, SpecLexerError>(SpecToken::Keyword(Keyword::Fn)) ==> item.kind is Function
    &&& keyword == Ok::<SpecToken, SpecLexerError>(SpecToken::Keyword(Keyword::Struct)) ==> item.kind is Struct
    &&& keyword == Ok::<SpecToken, SpecLexerError>(SpecToken::Keyword(Keyword::Mod)) ==> item.kind is Module
}

/// The `len` tokens of `b` are what follows the keyword of an item whose keyword token is
/// `keyword`: a function as [fn_tokens] has it, a structure as [struct_tokens] has it, or
/// `NAME ;` for a module.
pub open spec fn item_rest_tokens(b: &FileParser, keyword: Result<SpecToken, SpecLexerError>, len: nat) -> bool {
    match keyword {
        Ok(SpecToken::Keyword(Keyword::Fn)) => exists|
            pairs: Seq<(Seq<char>, Seq<char>)>,
            ret: Option<Seq<char>>,
            lens: Seq<nat>,
            tail: nat,
        |
            #[trigger] fn_tokens(b, pairs, ret, lens, tail) && len == list_end(
                b,
                2,
                pairs.len(),
                Punctuation::RParent,
            ) + return_type_len(ret) + crate::parser::expression::lens_sum(lens) + tail + 1,
        Ok(SpecToken::Keyword(Keyword::Struct)) => exists|pairs: Seq<(Seq<char>, Seq<char>)>|
            #[trigger] struct_tokens(b, pairs) && len == list_end(b, 2, pairs.len(), Punctuation::RBrace),
        Ok(SpecToken::Keyword(Keyword::Mod)) => (b.tokens(0) matches Ok(SpecToken::Identifier(_)))
            && b.tokens(1) == punct_token(Punctuation::Semicolon) && len == 2,
        _ => false,
    }
}

/// `kind` is the item that the tokens of `b` give after the item's keyword token `keyword`: a
/// function named by the first token, with the parameters, return type and body that tokens as
/// [fn_tokens] has them give; a structure named by the first token, with the fields that tokens
/// as [struct_tokens] has them give; or a module named by the first token, loadable from its
/// own file when `;` follows the name and inline when `{` does.
pub open spec fn item_kind_of_rest(b: &FileParser, keyword: Result<SpecToken, SpecLexerError>, kind: ItemKind) -> bool {
    match keyword {
        Ok(SpecToken::Keyword(Keyword::Fn)) => kind matches ItemKind::Function(f) && {
            &&& b.tokens(0) == ident_token(f.name@)
            &&& forall|pairs: Seq<(Seq<char>, Seq<char>)>, ret: Option<Seq<char>>, lens: Seq<nat>, tail: nat|
                #[trigger] fn_tokens(b, pairs, ret, lens, tail) ==> {
                    &&& param_pairs(f.params@) == pairs
                    &&& (match f.return_type {
                        Some(t) => ret == Some(t@),
                        None => ret is None,
                    })
                    &&& crate::parser::control::nested_block_of_at(
                        b,
                        list_end(b, 2, pairs.len(), Punctuation::RParent) + return_type_len(ret),
                        lens,
                        tail,
                        f.body,
                    )
                }
        },
        Ok(SpecToken::Keyword(Keyword::Struct)) => kind matches ItemKind::Struct(st) && {
            &&& b.tokens(0) == ident_token(st.name@)
            &&& forall|pairs: Seq<(Seq<char>, Seq<char>)>|
                #[trigger] struct_tokens(b, pairs) ==> field_pairs(st.fields@) == pairs
        },
        Ok(SpecToken::Keyword(Keyword::Mod)) => kind matches ItemKind::Module(m) && match m {
            Module::Loadable(name) => b.tokens(0) == ident_token(name@) && b.tokens(1) == punct_token(
                Punctuation::Semicolon,
            ),
            Module::Inline(name) => b.tokens(0) == ident_token(name@) && b.tokens(1) == punct_token(
                Punctuation::LBrace,
            ),
        },
        _ => false,
    }
}

/// How many tokens the visibility of an item takes: one for `pub`, none otherwise.
pub open spec fn visibility_len(p: &FileParser) -> nat {
    if p.tokens(0) == Ok::<SpecToken, SpecLexerError>(SpecToken::Keyword(Keyword::Pub)) {
        1
    } else {
        0
    }
}

/// The `len` tokens of `p` are an item: optionally `pub`, then `fn`, `struct` or `mod`, and what
/// follows that keyword as [item_rest_tokens] has it, read from a parser that many tokens
/// further on.
pub open spec fn item_tokens(p: &FileParser, len: nat) -> bool {
    let v = visibility_len(p);
    &&& len >= v + 1
    &&& exists|b: FileParser|
        #[trigger] item_rest_tokens(&b, p.tokens(v), (len - v - 1) as nat) && FileParser::skipped(p, &b, v + 1)
}

/// What follows an item's keyword depends on the tokens alone.
pub proof fn lemma_item_rest_same(b: &FileParser, s: &FileParser, keyword: Result<SpecToken, SpecLexerError>, len: nat)
    requires
        FileParser::skipped(b, s, 0),
        item_rest_tokens(b, keyword, len),
    ensures
        item_rest_tokens(s, keyword, len),
{
    assert forall|k: nat| #[trigger] s.tokens(k) == b.tokens(k) by {
        assert(s.tokens(k) == b.tokens(k + 0));
    }
    match keyword {
        Ok(SpecToken::Keyword(Keyword::Fn)) => {
            let (pairs, ret, lens, tail) = choose|
                pairs: Seq<(Seq<char>, Seq<char>)>,
                ret: Option<Seq<char>>,
                lens: Seq<nat>,
                tail: nat,
            |
                #[trigger] fn_tokens(b, pairs, ret, lens, tail) && len == list_end(
                    b,
                    2,
                    pairs.len(),
                    Punctuation::RParent,
                ) + return_type_len(ret) + crate::parser::expression::lens_sum(lens) + tail + 1;
            let e = list_end(b, 2, pairs.len(), Punctuation::RParent);
            assert(typed_list(s, 2, pairs)) by {
                assert forall|i: int| 0 <= i < pairs.len() implies {
                    &&& s.tokens((2 + 4 * i) as nat) == ident_token((#[trigger] pairs[i]).0)
                    &&& s.tokens((2 + 4 * i + 1) as nat) == punct_token(Punctuation::Colon)
                    &&& s.tokens((2 + 4 * i + 2) as nat) == ident_token(pairs[i].1)
                } by {}
                assert forall|i: int| 0 <= i < pairs.len() - 1 implies #[trigger] s.tokens((2 + 4 * i + 3) as nat)
                    == punct_token(Punctuation::Comma) by {
                    assert(b.tokens((2 + 4 * i + 3) as nat) == punct_token(Punctuation::Comma));
                }
            }
            assert(list_end(s, 2, pairs.len(), Punctuation::RParent) == e);
            crate::parser::control::lemma_nested_block_shift(b, s, 0, e + return_type_len(ret), lens, tail);
            assert(fn_tokens(s, pairs, ret, lens, tail));
        },
        Ok(SpecToken::Keyword(Keyword::Struct)) => {
            let pairs = choose|pairs: Seq<(Seq<char>, Seq<char>)>|
                #[trigger] struct_tokens(b, pairs) && len == list_end(b, 2, pairs.len(), Punctuation::RBrace);
            assert(typed_list(s, 2, pairs)) by {
                assert forall|i: int| 0 <= i < pairs.len() implies {
                    &&& s.tokens((2 + 4 * i) as nat) == ident_token((#[trigger] pairs[i]).0)
                    &&& s.tokens((2 + 4 * i + 1) as nat) == punct_token(Punctuation::Colon)
                    &&& s.tokens((2 + 4 * i + 2) as nat) == ident_token(pairs[i].1)
                } by {}
                assert forall|i: int| 0 <= i < pairs.len() - 1 implies #[trigger] s.tokens((2 + 4 * i + 3) as nat)
                    == punct_token(Punctuation::Comma) by {
                    assert(b.tokens((2 + 4 * i + 3) as nat) == punct_token(Punctuation::Comma));
                }
            }
            assert(list_end(s, 2, pairs.len(), Punctuation::RBrace) == list_end(b, 2, pairs.len(), Punctuation::RBrace));
            assert(struct_tokens(s, pairs));
        },
        _ => {},
    }
}

/// An item depends on the tokens alone.
pub proof fn lemma_item_same(b: &FileParser, s: &FileParser, len: nat)
    requires
        FileParser::skipped(b, s, 0),
        item_tokens(b, len),
    ensures
        item_tokens(s, len),
{
    assert(s.tokens(0) == b.tokens(0 + 0));
    let v = visibility_len(b);
    assert(s.tokens(v) == b.tokens(v + 0));
    let w = choose|w: FileParser| #[trigger] item_rest_tokens(&w, b.tokens(v), (len - v - 1) as nat) && FileParser::skipped(b, &w, v + 1);
    assert forall|k: nat| #[trigger] w.tokens(k) == s.tokens(k + (v + 1)) by {
        assert(w.tokens(k) == b.tokens(k + (v + 1)));
        assert(s.tokens(k + (v + 1)) == b.tokens(k + (v + 1) + 0));
    }
    assert(FileParser::skipped(s, &w, v + 1));
}

/// After the keyword of an item that [item_tokens] describes, what follows it is as
/// [item_rest_tokens] has it.
pub proof fn lemma_item_rest_at(s0: &FileParser, s1: &FileParser, s2: &FileParser, len: nat)
    requires
        item_tokens(s0, len),
        FileParser::skipped(s0, s1, visibility_len(s0)),
        FileParser::skipped(s1, s2, 1),
    ensures
        item_rest_tokens(s2, s0.tokens(visibility_len(s0)), (len - visibility_len(s0) - 1) as nat),
        FileParser::skipped(s0, s2, visibility_len(s0) + 1),
{
    let v = visibility_len(s0);
    let w = choose|w: FileParser| #[trigger] item_rest_tokens(&w, s0.tokens(v), (len - v - 1) as nat) && FileParser::skipped(s0, &w, v + 1);
    FileParser::lemma_skipped_trans(s0, s1, s2, v, 1);
    assert forall|k: nat| #[trigger] s2.tokens(k) == w.tokens(k + 0) by {
        assert(s2.tokens(k) == s0.tokens(k + (v + 1)));
        assert(w.tokens(k) == s0.tokens(k + (v + 1)));
    }
    lemma_item_rest_same(&w, s2, s0.tokens(v), (len - v - 1) as nat);
}

/// From the `j`-th token of `p` on: items as [item_tokens] has them, of `lens[i]` tokens each,
/// each read from a parser that many tokens further on.
#[verifier::opaque]
pub open spec fn items_at(p: &FileParser, j: nat, lens: Seq<nat>) -> bool {
    forall|i: int|
        #![trigger lens[i]]
        0 <= i < lens.len() ==> item_at(p, j + crate::parser::expression::lens_sum(lens.take(i)), lens[i])
}

/// From the `pos`-th token of `p` on, the `len` tokens are an item, as read from a parser that
/// many tokens further on.
#[verifier::opaque]
pub open spec fn item_at(p: &FileParser, pos: nat, len: nat) -> bool {
    exists|b: FileParser| #[trigger] item_tokens(&b, len) && FileParser::skipped(p, &b, pos)
}

/// An item depends on the tokens alone.
pub proof fn lemma_item_at_same(p: &FileParser, q: &FileParser, pos: nat, len: nat)
    requires
        FileParser::skipped(p, q, 0),
        item_at(p, pos, len),
    ensures
        item_at(q, pos, len),
{
    reveal(item_at);
    let b = choose|b: FileParser| #[trigger] item_tokens(&b, len) && FileParser::skipped(p, &b, pos);
    assert forall|k: nat| #[trigger] b.tokens(k) == q.tokens(k + pos) by {
        assert(b.tokens(k) == p.tokens(k + pos));
        assert(q.tokens(k + pos) == p.tokens(k + pos + 0));
    }
    assert(item_tokens(&b, len) && FileParser::skipped(q, &b, pos));
}

/// Items depend on the tokens alone.
pub proof fn lemma_top_same(p: &FileParser, q: &FileParser, lens: Seq<nat>)
    requires
        FileParser::skipped(p, q, 0),
        top_tokens(p, lens),
    ensures
        top_tokens(q, lens),
{
    reveal(items_at);
    assert(q.tokens(crate::parser::expression::lens_sum(lens)) == p.tokens(
        crate::parser::expression::lens_sum(lens) + 0,
    ));
    assert forall|i: int| #![trigger lens[i]] 0 <= i < lens.len() implies item_at(
        q,
        0 + crate::parser::expression::lens_sum(lens.take(i)),
        lens[i],
    ) by {
        lemma_item_at_same(p, q, 0 + crate::parser::expression::lens_sum(lens.take(i)), lens[i]);
    }
}

/// The text is items up to its end, as [top_tokens] has them for a parser that reads it from
/// its start.
pub open spec fn text_items(text: Seq<char>) -> bool {
    exists|p: FileParser, lens: Seq<nat>|
        #[trigger] top_tokens(&p, lens) && p.lexer.spec_rest() == text && p.lexer.spec_current() is None
}

/// The tokens of `p` are a module after `mod`: a name, `{`, items of the lengths `lens`, and
/// `}`.
pub open spec fn module_tokens(p: &FileParser, lens: Seq<nat>) -> bool {
    &&& (p.tokens(0) matches Ok(SpecToken::Identifier(_)))
    &&& p.tokens(1) == punct_token(Punctuation::LBrace)
    &&& items_at(p, 2, lens)
    &&& p.tokens(2 + crate::parser::expression::lens_sum(lens)) == punct_token(Punctuation::RBrace)
}

/// The tokens of `p` are items of the lengths `lens` up to the end of input.
pub open spec fn top_tokens(p: &FileParser, lens: Seq<nat>) -> bool {
    &&& items_at(p, 0, lens)
    &&& p.tokens(crate::parser::expression::lens_sum(lens)) == Ok::<SpecToken, SpecLexerError>(SpecToken::Eof)
}

/// The tokens of `p` from the `pos`-th on, read by `b`, begin the item `item`, as
/// [item_begins] has it, whose kind is what the tokens after its keyword, read by `c`, give.
pub open spec fn item_read_at(p: &FileParser, b: &FileParser, c: &FileParser, pos: nat, item: Item) -> bool {
    &&& FileParser::skipped(p, b, pos)
    &&& item_begins(b, item)
    &&& FileParser::skipped(b, c, visibility_len(b) + 1)
    &&& item_kind_of_rest(c, b.tokens(visibility_len(b)), item.kind)
}

/// The item whose tokens begin at the `pos`-th token of `p` is in the table `t`: declared under
/// its name in the scope `scope`, or listed as a clash with an earlier declaration.
pub open spec fn item_recorded(p: &FileParser, scope: Seq<Seq<char>>, t: ItemTable, pos: nat) -> bool {
    exists|b: FileParser, c: FileParser, item: Item|
        #[trigger] item_read_at(p, &b, &c, pos, item) && {
            let entry = (scope.push(item.spec_name()@), item);
            t.spec_declared().contains(entry) || t.spec_duplicated().contains(entry)
        }
}

/// `after` is `before` followed by the file of the module at each path of `paths`, in order.
pub open spec fn files_added(before: Seq<PendingFile>, after: Seq<PendingFile>, paths: Seq<Seq<Seq<char>>>) -> bool {
    &&& after.len() == before.len() + paths.len()
    &&& after.subrange(0, before.len() as int) == before
    &&& forall|i: int|
        #![trigger paths[i]]
        0 <= i < paths.len() ==> general_at(after, before.len() + i, paths[i])
}

/// The `k`-th file of `s` is that of the module at `path`, found at the default place.
pub open spec fn general_at(s: Seq<PendingFile>, k: int, path: Seq<Seq<char>>) -> bool {
    s[k] matches PendingFile::General(f) && f@ == path
}

/// Adding files one after the other adds them all.
pub proof fn lemma_files_added_trans(
    a: Seq<PendingFile>,
    b: Seq<PendingFile>,
    c: Seq<PendingFile>,
    p: Seq<Seq<Seq<char>>>,
    q: Seq<Seq<Seq<char>>>,
)
    requires
        files_added(a, b, p),
        files_added(b, c, q),
    ensures
        files_added(a, c, p + q),
{
    assert(c.subrange(0, a.len() as int) =~= a) by {
        assert forall|k: int| 0 <= k < a.len() implies c[k] == a[k] by {
            assert(c.subrange(0, b.len() as int)[k] == b[k]);
            assert(b.subrange(0, a.len() as int)[k] == a[k]);
        }
    }
    let pq = p + q;
    assert forall|i: int| #![trigger pq[i]] 0 <= i < pq.len() implies general_at(c, a.len() + i, pq[i]) by {
        if i < p.len() {
            assert(pq[i] == p[i]);
            assert(general_at(b, a.len() + i, p[i]));
            assert(c.subrange(0, b.len() as int)[a.len() + i] == c[a.len() + i]);
            assert(c[a.len() + i] == b[a.len() + i]);
        } else {
            let j = i - p.len();
            assert(pq[i] == q[j]);
            assert(general_at(c, b.len() + j, q[j]));
            assert(a.len() + i == b.len() + j);
        }
    }
}

/// The name that the `k`-th token of `p` is, if it is one.
pub open spec fn name_at(p: &FileParser, k: nat) -> Seq<char> {
    match p.tokens(k) {
        Ok(SpecToken::Identifier(name)) => name,
        _ => seq![],
    }
}

/// The file that the item of `p` from the `pos`-th token on leaves to be parsed, in the scope
/// `scope`: one for `mod NAME`, optionally after `pub`, and none for any other item.
pub open spec fn item_files_at(p: &FileParser, scope: Seq<Seq<char>>, pos: nat) -> Seq<Seq<Seq<char>>> {
    let v: nat = if p.tokens(pos) == Ok::<SpecToken, SpecLexerError>(SpecToken::Keyword(Keyword::Pub)) {
        1
    } else {
        0
    };
    if p.tokens(pos + v) == Ok::<SpecToken, SpecLexerError>(SpecToken::Keyword(Keyword::Mod)) {
        seq![scope.push(name_at(p, pos + v + 1))]
    } else {
        seq![]
    }
}

/// The files that items of `p` of the lengths `lens`, from the first token on, leave to be
/// parsed, in the scope `scope`, in order.
pub open spec fn module_files(p: &FileParser, scope: Seq<Seq<char>>, lens: Seq<nat>) -> Seq<Seq<Seq<char>>>
    decreases lens.len(),
{
    if lens.len() == 0 {
        seq![]
    } else {
        module_files(p, scope, lens.drop_last()) + item_files_at(
            p,
            scope,
            crate::parser::expression::lens_sum(lens.drop_last()),
        )
    }
}

/// Files that items leave depend on the tokens alone.
pub proof fn lemma_module_files_same(p: &FileParser, q: &FileParser, scope: Seq<Seq<char>>, lens: Seq<nat>)
    requires
        forall|k: nat| #[trigger] q.tokens(k) == p.tokens(k),
    ensures
        module_files(q, scope, lens) == module_files(p, scope, lens),
    decreases lens.len(),
{
    if lens.len() > 0 {
        lemma_module_files_same(p, q, scope, lens.drop_last());
        let pos = crate::parser::expression::lens_sum(lens.drop_last());
        assert(q.tokens(pos) == p.tokens(pos));
        assert(q.tokens(pos + 1) == p.tokens(pos + 1));
        assert(q.tokens(pos + 2) == p.tokens(pos + 2));
        assert(q.tokens(pos + 0 + 1) == p.tokens(pos + 0 + 1));
        assert(item_files_at(q, scope, pos) == item_files_at(p, scope, pos));
    }
}

/// An item recorded for the tokens of one parser is recorded for another with the same tokens.
pub proof fn lemma_recorded_same(p: &FileParser, q: &FileParser, scope: Seq<Seq<char>>, t: ItemTable, pos: nat)
    requires
        forall|k: nat| #[trigger] q.tokens(k) == p.tokens(k),
        item_recorded(q, scope, t, pos),
    ensures
        item_recorded(p, scope, t, pos),
{
    let (b, c, item) = choose|b: FileParser, c: FileParser, item: Item|
        #[trigger] item_read_at(q, &b, &c, pos, item) && {
            let entry = (scope.push(item.spec_name()@), item);
            t.spec_declared().contains(entry) || t.spec_duplicated().contains(entry)
        };
    assert forall|k: nat| #[trigger] b.tokens(k) == p.tokens(k + pos) by {
        assert(b.tokens(k) == q.tokens(k + pos));
    }
    assert(item_read_at(p, &b, &c, pos, item));
}

/// The name that the first token of `p` is, if it is one.
pub open spec fn first_name(p: &FileParser) -> Seq<char> {
    match p.tokens(0) {
        Ok(SpecToken::Identifier(name)) => name,
        _ => seq![],
    }
}

/// An item in a table stays there as the table grows.
pub proof fn lemma_recorded_grows(p: &FileParser, scope: Seq<Seq<char>>, t: ItemTable, u: ItemTable, pos: nat)
    requires
        item_recorded(p, scope, t, pos),
        crate::parser::prefix_of(t.spec_declared(), u.spec_declared()),
        crate::parser::prefix_of(t.spec_duplicated(), u.spec_duplicated()),
    ensures
        item_recorded(p, scope, u, pos),
{
    let (b, c, item) = choose|b: FileParser, c: FileParser, item: Item|
        #[trigger] item_read_at(p, &b, &c, pos, item) && {
            let entry = (scope.push(item.spec_name()@), item);
            t.spec_declared().contains(entry) || t.spec_duplicated().contains(entry)
        };
    let entry = (scope.push(item.spec_name()@), item);
    let d = t.spec_declared();
    let w = t.spec_duplicated();
    if d.contains(entry) {
        let k = choose|k: int| 0 <= k < d.len() && d[k] == entry;
        assert(u.spec_declared().subrange(0, d.len() as int)[k] == d[k]);
        assert(u.spec_declared()[k] == entry);
    } else {
        let k = choose|k: int| 0 <= k < w.len() && w[k] == entry;
        assert(u.spec_duplicated().subrange(0, w.len() as int)[k] == w[k]);
        assert(u.spec_duplicated()[k] == entry);
    }
    assert(item_read_at(p, &b, &c, pos, item));
}

/// The tokens of a function after `fn` divide in one way only.
pub proof fn lemma_fn_tokens_unique(
    p: &FileParser,
    pairs1: Seq<(Seq<char>, Seq<char>)>,
    ret1: Option<Seq<char>>,
    lens1: Seq<nat>,
    tail1: nat,
    pairs2: Seq<(Seq<char>, Seq<char>)>,
    ret2: Option<Seq<char>>,
    lens2: Seq<nat>,
    tail2: nat,
)
    requires
        fn_tokens(p, pairs1, ret1, lens1, tail1),
        fn_tokens(p, pairs2, ret2, lens2, tail2),
    ensures
        pairs1 == pairs2,
        ret1 == ret2,
        lens1 == lens2,
        tail1 == tail2,
{
    lemma_typed_list_unique(p, 2, Punctuation::RParent, pairs1, pairs2);
    if ret1 != ret2 {
        match (ret1, ret2) {
            (Some(x), Some(y)) => {
                assert(ident_token(x) == ident_token(y));
            },
            _ => {},
        }
    }
    let e = list_end(p, 2, pairs1.len(), Punctuation::RParent) + return_type_len(ret1);
    crate::parser::control::lemma_nested_block_unique_at(p, e, lens1, tail1, lens2, tail2);
}

/// What follows an item's keyword has one length.
pub proof fn lemma_item_rest_unique(b: &FileParser, keyword: Result<SpecToken, SpecLexerError>, n1: nat, n2: nat)
    requires
        item_rest_tokens(b, keyword, n1),
        item_rest_tokens(b, keyword, n2),
    ensures
        n1 == n2,
{
    match keyword {
        Ok(SpecToken::Keyword(Keyword::Fn)) => {
            let w1 = choose|pairs: Seq<(Seq<char>, Seq<char>)>, ret: Option<Seq<char>>, lens: Seq<nat>, tail: nat|
                #[trigger] fn_tokens(b, pairs, ret, lens, tail) && n1 == list_end(b, 2, pairs.len(), Punctuation::RParent)
                    + return_type_len(ret) + crate::parser::expression::lens_sum(lens) + tail + 1;
            let w2 = choose|pairs: Seq<(Seq<char>, Seq<char>)>, ret: Option<Seq<char>>, lens: Seq<nat>, tail: nat|
                #[trigger] fn_tokens(b, pairs, ret, lens, tail) && n2 == list_end(b, 2, pairs.len(), Punctuation::RParent)
                    + return_type_len(ret) + crate::parser::expression::lens_sum(lens) + tail + 1;
            lemma_fn_tokens_unique(b, w1.0, w1.1, w1.2, w1.3, w2.0, w2.1, w2.2, w2.3);
        },
        Ok(SpecToken::Keyword(Keyword::Struct)) => {
            let q1 = choose|pairs: Seq<(Seq<char>, Seq<char>)>|
                #[trigger] struct_tokens(b, pairs) && n1 == list_end(b, 2, pairs.len(), Punctuation::RBrace);
            let q2 = choose|pairs: Seq<(Seq<char>, Seq<char>)>|
                #[trigger] struct_tokens(b, pairs) && n2 == list_end(b, 2, pairs.len(), Punctuation::RBrace);
            lemma_typed_list_unique(b, 2, Punctuation::RBrace, q1, q2);
        },
        _ => {},
    }
}

/// An item has one length.
pub proof fn lemma_item_unique(p: &FileParser, l1: nat, l2: nat)
    requires
        item_tokens(p, l1),
        item_tokens(p, l2),
    ensures
        l1 == l2,
{
    let v = visibility_len(p);
    let b1 = choose|b: FileParser| #[trigger] item_rest_tokens(&b, p.tokens(v), (l1 - v - 1) as nat) && FileParser::skipped(p, &b, v + 1);
    let b2 = choose|b: FileParser| #[trigger] item_rest_tokens(&b, p.tokens(v), (l2 - v - 1) as nat) && FileParser::skipped(p, &b, v + 1);
    assert forall|k: nat| #[trigger] b1.tokens(k) == b2.tokens(k + 0) by {
        assert(b1.tokens(k) == p.tokens(k + (v + 1)));
        assert(b2.tokens(k) == p.tokens(k + (v + 1)));
    }
    lemma_item_rest_same(&b2, &b1, p.tokens(v), (l2 - v - 1) as nat);
    lemma_item_rest_unique(&b1, p.tokens(v), (l1 - v - 1) as nat, (l2 - v - 1) as nat);
}

/// An item from the `pos`-th token on has one length, and begins with a keyword.
pub proof fn lemma_item_at_unique(p: &FileParser, pos: nat, l1: nat, l2: nat)
    requires
        item_at(p, pos, l1),
    ensures
        p.tokens(pos) matches Ok(SpecToken::Keyword(_)),
        item_at(p, pos, l2) ==> l1 == l2,
{
    reveal(item_at);
    let b1 = choose|b: FileParser| #[trigger] item_tokens(&b, l1) && FileParser::skipped(p, &b, pos);
    assert(b1.tokens(0) == p.tokens(0 + pos));
    lemma_item_first(&b1, l1);
    if item_at(p, pos, l2) {
        let b2 = choose|b: FileParser| #[trigger] item_tokens(&b, l2) && FileParser::skipped(p, &b, pos);
        assert forall|k: nat| #[trigger] b1.tokens(k) == b2.tokens(k + 0) by {
            assert(b1.tokens(k) == p.tokens(k + pos));
            assert(b2.tokens(k) == p.tokens(k + pos));
        }
        lemma_item_same(&b2, &b1, l2);
        lemma_item_unique(&b1, l1, l2);
    }
}

/// Two divisions of the tokens from the `j`-th on into items agree on their first `i` items.
proof fn lemma_items_prefix(p: &FileParser, j: nat, lens1: Seq<nat>, lens2: Seq<nat>, i: int)
    requires
        items_at(p, j, lens1),
        items_at(p, j, lens2),
        0 <= i <= lens1.len(),
        i <= lens2.len(),
    ensures
        lens1.take(i) == lens2.take(i),
    decreases i,
{
    if i > 0 {
        lemma_items_prefix(p, j, lens1, lens2, i - 1);
        reveal(items_at);
        let pos = j + crate::parser::expression::lens_sum(lens1.take(i - 1));
        assert(item_at(p, pos, lens1[i - 1]));
        assert(item_at(p, j + crate::parser::expression::lens_sum(lens2.take(i - 1)), lens2[i - 1]));
        lemma_item_at_unique(p, pos, lens1[i - 1], lens2[i - 1]);
        assert(lens1.take(i) =~= lens1.take(i - 1).push(lens1[i - 1]));
        assert(lens2.take(i) =~= lens2.take(i - 1).push(lens2[i - 1]));
    }
}

/// Items up to the end of input divide the tokens in one way only.
pub proof fn lemma_top_unique(p: &FileParser, lens1: Seq<nat>, lens2: Seq<nat>)
    requires
        top_tokens(p, lens1),
        top_tokens(p, lens2),
    ensures
        lens1 == lens2,
{
    reveal(items_at);
    if lens1.len() < lens2.len() {
        let k = lens1.len() as int;
        lemma_items_prefix(p, 0, lens1, lens2, k);
        assert(lens1.take(k) =~= lens1);
        assert(item_at(p, 0 + crate::parser::expression::lens_sum(lens2.take(k)), lens2[k]));
        lemma_item_at_unique(p, 0 + crate::parser::expression::lens_sum(lens2.take(k)), lens2[k], lens2[k]);
    } else if lens2.len() < lens1.len() {
        let k = lens2.len() as int;
        lemma_items_prefix(p, 0, lens1, lens2, k);
        assert(lens2.take(k) =~= lens2);
        assert(item_at(p, 0 + crate::parser::expression::lens_sum(lens1.take(k)), lens1[k]));
        lemma_item_at_unique(p, 0 + crate::parser::expression::lens_sum(lens1.take(k)), lens1[k], lens1[k]);
    } else {
        let k = lens1.len() as int;
        lemma_items_prefix(p, 0, lens1, lens2, k);
        assert(lens1.take(k) =~= lens1);
        assert(lens2.take(k) =~= lens2);
    }
}

/// The items of a module after `mod` divide its tokens in one way only.
pub proof fn lemma_module_unique(p: &FileParser, lens1: Seq<nat>, lens2: Seq<nat>)
    requires
        module_tokens(p, lens1),
        module_tokens(p, lens2),
    ensures
        lens1 == lens2,
{
    reveal(items_at);
    if lens1.len() < lens2.len() {
        let k = lens1.len() as int;
        lemma_items_prefix(p, 2, lens1, lens2, k);
        assert(lens1.take(k) =~= lens1);
        assert(item_at(p, 2 + crate::parser::expression::lens_sum(lens2.take(k)), lens2[k]));
        lemma_item_at_unique(p, 2 + crate::parser::expression::lens_sum(lens2.take(k)), lens2[k], lens2[k]);
    } else if lens2.len() < lens1.len() {
        let k = lens2.len() as int;
        lemma_items_prefix(p, 2, lens1, lens2, k);
        assert(lens2.take(k) =~= lens2);
        assert(item_at(p, 2 + crate::parser::expression::lens_sum(lens1.take(k)), lens1[k]));
        lemma_item_at_unique(p, 2 + crate::parser::expression::lens_sum(lens1.take(k)), lens1[k], lens1[k]);
    } else {
        let k = lens1.len() as int;
        lemma_items_prefix(p, 2, lens1, lens2, k);
        assert(lens1.take(k) =~= lens1);
        assert(lens2.take(k) =~= lens2);
    }
}

/// An item begins with a keyword: `pub`, or that of its kind.
pub proof fn lemma_item_first(p: &FileParser, len: nat)
    requires
        item_tokens(p, len),
    ensures
        p.tokens(0) matches Ok(SpecToken::Keyword(_)),
        p.tokens(visibility_len(p)) == Ok::<SpecToken, SpecLexerError>(SpecToken::Keyword(Keyword::Fn))
            || p.tokens(visibility_len(p)) == Ok::<SpecToken, SpecLexerError>(SpecToken::Keyword(Keyword::Struct))
            || p.tokens(visibility_len(p)) == Ok::<SpecToken, SpecLexerError>(SpecToken::Keyword(Keyword::Mod)),
{
}

/// The `i`-th of such items, read from a parser at its first token.
pub proof fn lemma_items_next(p: &FileParser, s: &FileParser, j: nat, lens: Seq<nat>, i: int)
    requires
        items_at(p, j, lens),
        0 <= i < lens.len(),
        FileParser::skipped(p, s, j + crate::parser::expression::lens_sum(lens.take(i))),
    ensures
        item_tokens(s, lens[i]),
        s.tokens(0) matches Ok(SpecToken::Keyword(_)),
{
    reveal(items_at);
    reveal(item_at);
    let pos = j + crate::parser::expression::lens_sum(lens.take(i));
    let b = choose|b: FileParser| #[trigger] item_tokens(&b, lens[i]) && FileParser::skipped(p, &b, pos);
    assert forall|k: nat| #[trigger] s.tokens(k) == b.tokens(k + 0) by {
        assert(s.tokens(k) == p.tokens(k + pos));
        assert(b.tokens(k) == p.tokens(k + pos));
    }
    lemma_item_same(&b, s, lens[i]);
    lemma_item_first(s, lens[i]);
}

impl FileParser {
    /// Parses an item: an optional `pub`, then a function, structure or module; the item is
    /// declared under its name in the current scope, with the kind that the tokens after its
    /// keyword give, as [item_kind_of_rest] has it.
    ///
    /// Any other token is reported as "expected an item".
    pub fn parse_item(&mut self) -> (r: Result<(), ParserError>)
        requires
            old(self).wf(),
        ensures
            FileParser::advanced(old(self), final(self)),
            FileParser::reported(old(self), final(self), r),
            FileParser::consumed(old(self), final(self), r),
            r is Ok ==> exists|name: Seq<char>|
                #[trigger] final(self).item_table.spec_lookup(old(self).spec_scope().push(name)) is Some,
            r is Ok ==> exists|mid: FileParser, item: Item|
                #[trigger] FileParser::declared_last(&mid, final(self), old(self).spec_scope().push(item.spec_name()@), item)
                    && item_begins(old(self), item)
                    && item.span.start.spec_index() == old(self).lexer.spec_input().spec_index()
                    && item.span.end.spec_index() == final(self).lexer.spec_input().spec_index()
                    && exists|b: FileParser|
                        #[trigger] item_kind_of_rest(&b, old(self).tokens(visibility_len(old(self))), item.kind)
                            && FileParser::skipped(old(self), &b, visibility_len(old(self)) + 1),
            forall|len: nat| #[trigger] item_tokens(old(self), len) ==> r is Ok && FileParser::skipped(
                old(self),
                final(self),
                len,
            ) && files_added(
                old(self).spec_pending(),
                final(self).spec_pending(),
                item_files_at(old(self), old(self).spec_scope(), 0),
            ),
        decreases old(self).lexer.remaining(), 0int,
    {
        let ghost simple = exists|len: nat| #[trigger] item_tokens(old(self), len);
        let ghost v = visibility_len(old(self));
        let ghost s0 = *self;
        let start = self.location();
        let public = self.eat_keyword(Keyword::Pub)?;
        let ghost s1 = *self;
        proof {
            assert(FileParser::skipped(&s0, &s1, v));
            assert(s1.tokens(0) == s0.tokens(0 + v));
        }
        let visibility = if public {
            Visibility::Public
        } else {
            Visibility::default()
        };
        let is_fn = self.eat_keyword(Keyword::Fn)?;
        let ghost s2 = *self;
        let ghost mut after_keyword = *self;
        proof {
            if simple && is_fn {
                assert forall|len: nat| #[trigger] item_tokens(old(self), len) implies item_rest_tokens(
                    &after_keyword,
                    old(self).tokens(v),
                    (len - v - 1) as nat,
                ) by {
                    lemma_item_rest_at(&s0, &s1, &after_keyword, len);
                }
            }
        }
        let kind = if is_fn {
            ItemKind::Function(self.parse_fn()?)
        } else {
            proof {
                if simple {
                    assert(s2.tokens(0) == s1.tokens(0 + 0));
                }
            }
            let is_struct = self.eat_keyword(Keyword::Struct)?;
            proof {
                after_keyword = *self;
                if simple && is_struct {
                    FileParser::lemma_skipped_trans(&s1, &s2, &after_keyword, 0, 1);
                    assert forall|len: nat| #[trigger] item_tokens(old(self), len) implies item_rest_tokens(
                        &after_keyword,
                        old(self).tokens(v),
                        (len - v - 1) as nat,
                    ) by {
                        lemma_item_rest_at(&s0, &s1, &after_keyword, len);
                    }
                }
            }
            if is_struct {
                ItemKind::Struct(self.parse_struct()?)
            } else {
                let ghost s3 = *self;
                proof {
                    if simple {
                        FileParser::lemma_skipped_trans(&s1, &s2, &s3, 0, 0);
                        assert(s3.tokens(0) == s1.tokens(0 + 0));
                    }
                }
                let is_mod = self.eat_keyword(Keyword::Mod)?;
                proof {
                    after_keyword = *self;
                    if simple && is_mod {
                        FileParser::lemma_skipped_trans(&s1, &s3, &after_keyword, 0, 1);
                        assert forall|len: nat| #[trigger] item_tokens(old(self), len) implies item_rest_tokens(
                            &after_keyword,
                            old(self).tokens(v),
                            (len - v - 1) as nat,
                        ) by {
                            lemma_item_rest_at(&s0, &s1, &after_keyword, len);
                        }
                    }
                }
                if is_mod {
                    ItemKind::Module(self.parse_module()?)
                } else {
                    self.report(start, expected_item());
                    return Err(ParserError::ParserError);
                }
            }
        };
        let ghost parsed = *self;
        proof {
            if simple {
                assert forall|len: nat| #[trigger] item_tokens(old(self), len) implies FileParser::skipped(
                    old(self),
                    &parsed,
                    len,
                ) by {
                    lemma_item_rest_at(&s0, &s1, &after_keyword, len);
                    FileParser::lemma_skipped_trans(&s0, &after_keyword, &parsed, v + 1, (len - v - 1) as nat);
                }
                let len0 = choose|len: nat| #[trigger] item_tokens(old(self), len);
                lemma_item_rest_at(&s0, &s1, &after_keyword, len0);
                assert(after_keyword.tokens(0) == old(self).tokens(0 + (v + 1)));
                assert(old(self).tokens(0 + 0) == old(self).tokens(0));
                assert(old(self).spec_pending().subrange(0, old(self).spec_pending().len() as int)
                    =~= old(self).spec_pending());
                let pend = old(self).spec_pending();
                if old(self).tokens(v) == Ok::<SpecToken, SpecLexerError>(SpecToken::Keyword(Keyword::Mod)) {
                    assert(kind is Module);
                    assert(parsed.spec_pending().drop_last() == pend);
                    assert(parsed.spec_pending().len() == pend.len() + 1);
                    assert(after_keyword.tokens(0) == ident_token(name_at(old(self), v + 1)));
                    assert(parsed.spec_pending().last() matches PendingFile::General(f) && f@ == old(self).spec_scope().push(name_at(old(self), v + 1)));
                    assert(parsed.spec_pending().subrange(0, pend.len() as int) =~= parsed.spec_pending().drop_last());
                    assert(general_at(parsed.spec_pending(), pend.len() as int, item_files_at(old(self), old(self).spec_scope(), 0)[0]));
                }
                assert(files_added(pend, parsed.spec_pending(), item_files_at(old(self), old(self).spec_scope(), 0)));
            }
        }
        let end = self.location();
        let item = Item::new(kind, Span { source: self.source(), start, end }, visibility);
        let ghost name = item.spec_name()@;
        let ghost mid = *self;
        let ghost declared = item;
        proof {
            FileParser::lemma_skipped_trans(&s0, &s1, &after_keyword, v, 1);
            assert(item_kind_of_rest(&after_keyword, old(self).tokens(v), declared.kind));
        }
        self.declare_item(item);
        proof {
            assert(FileParser::declared_last(&mid, self, old(self).spec_scope().push(declared.spec_name()@), declared));
            assert forall|k: nat| #[trigger] self.tokens(k) == parsed.tokens(k) by {}
        }
        Ok(())
    }

    /// Parses a module. Keyword `mod` is expected to be consumed beforehand.
    ///
    /// `mod NAME;` leaves the module's file pending; `mod NAME { ITEMS }` parses the items in the
    /// module's scope. Where the items are as [module_tokens] has them, each of them is recorded
    /// in the table under the module's scope, as [item_recorded] has it.
    #[verifier::rlimit(30)]
    pub fn parse_module(&mut self) -> (r: Result<Module, ParserError>)
        requires
            old(self).wf(),
        ensures
            FileParser::advanced(old(self), final(self)),
            FileParser::reported(old(self), final(self), r),
            FileParser::consumed(old(self), final(self), r),
            r matches Ok(Module::Loadable(name)) ==> old(self).tokens(0) == ident_token(name@)
                && old(self).tokens(1) == punct_token(Punctuation::Semicolon) && (
            final(self).spec_pending().last() matches PendingFile::General(path) && path@ == old(
                self,
            ).spec_scope().push(name@)) && final(self).spec_pending().drop_last() == old(self).spec_pending()
                && final(self).spec_pending().len() == old(self).spec_pending().len() + 1,
            r matches Ok(Module::Inline(name)) ==> old(self).tokens(0) == ident_token(name@)
                && old(self).tokens(1) == punct_token(Punctuation::LBrace),
            (old(self).tokens(0) matches Ok(SpecToken::Identifier(_))) && old(self).tokens(1)
                == punct_token(Punctuation::Semicolon) ==> (r matches Ok(Module::Loadable(_)))
                && FileParser::skipped(old(self), final(self), 2),
            (exists|lens: Seq<nat>| #[trigger] module_tokens(old(self), lens)) ==> (r matches Ok(
                Module::Inline(_),
            )),
            forall|lens: Seq<nat>|
                #[trigger] module_tokens(old(self), lens) ==> FileParser::skipped(
                    old(self),
                    final(self),
                    3 + crate::parser::expression::lens_sum(lens),
                ),
            forall|lens: Seq<nat>, i: int|
                module_tokens(old(self), lens) && 0 <= i < lens.len() ==> #[trigger] item_recorded(
                    old(self),
                    old(self).spec_scope().push(first_name(old(self))),
                    final(self).item_table,
                    2 + crate::parser::expression::lens_sum(lens.take(i)),
                ),
        decreases old(self).lexer.remaining(), 0int,
    {
        let ghost simple = exists|lens: Seq<nat>| #[trigger] module_tokens(old(self), lens);
        let ghost lens = choose|lens: Seq<nat>| module_tokens(old(self), lens);
        let ghost s0 = *self;
        let name = self.expect_identifier()?;
        let ghost s1 = *self;
        proof {
            assert(s1.tokens(0) == s0.tokens(0 + 1));
        }
        if self.eat_punctuation(Punctuation::Semicolon)? {
            let ghost s2 = *self;
            let mut path = self.scope();
            path.push(name.duplicate());
            self.push_pending(PendingFile::General(path));
            proof {
                FileParser::lemma_skipped_trans(&s0, &s1, &s2, 1, 1);
                assert forall|k: nat| #[trigger] self.tokens(k) == s0.tokens(k + 2) by {
                    assert(self.tokens(k) == s2.tokens(k));
                }
            }
            return Ok(Module::Loadable(name));
        }
        let ghost s2 = *self;
        proof {
            if simple {
                assert(s2.tokens(0) == s0.tokens(0 + 1));
            }
        }
        self.expect_punctuation(Punctuation::LBrace)?;
        proof {
            FileParser::lemma_skipped_trans(&s0, &s1, &s2, 1, 0);
            if simple {
                FileParser::lemma_skipped_trans(&s0, &s2, self, 1, 1);
                assert(lens.take(0) =~= Seq::<nat>::empty());
            }
        }
        let ghost mut i: int = 0;
        loop
            invariant_except_break
                simple ==> 0 <= i <= lens.len() && FileParser::skipped(
                    old(self),
                    self,
                    2 + crate::parser::expression::lens_sum(lens.take(i)),
                ),
            invariant
                FileParser::advanced(old(self), self),
                self.lexer.remaining() < old(self).lexer.remaining(),
                old(self).tokens(0) == ident_token(name@),
                old(self).tokens(1) == punct_token(Punctuation::LBrace),
                simple == exists|lens: Seq<nat>| #[trigger] module_tokens(old(self), lens),
                simple ==> module_tokens(old(self), lens),
                simple ==> 0 <= i <= lens.len(),
                simple ==> forall|m: int|
                    0 <= m < i ==> #[trigger] item_recorded(
                        old(self),
                        old(self).spec_scope().push(name@),
                        self.item_table,
                        2 + crate::parser::expression::lens_sum(lens.take(m)),
                    ),
            ensures
                FileParser::advanced(old(self), self),
                self.lexer.remaining() < old(self).lexer.remaining(),
                old(self).tokens(0) == ident_token(name@),
                simple ==> FileParser::skipped(old(self), self, 3 + crate::parser::expression::lens_sum(lens)),
                simple ==> forall|m: int|
                    0 <= m < lens.len() ==> #[trigger] item_recorded(
                        old(self),
                        old(self).spec_scope().push(name@),
                        self.item_table,
                        2 + crate::parser::expression::lens_sum(lens.take(m)),
                    ),
            decreases self.lexer.remaining(),
        {
            let ghost h = *self;
            proof {
                if simple {
                    if i < lens.len() {
                        lemma_items_next(old(self), &h, 2, lens, i);
                    } else {
                        assert(lens.take(i) =~= lens);
                        assert(h.tokens(0) == old(self).tokens(0 + (2 + crate::parser::expression::lens_sum(lens))));
                    }
                }
            }
            if self.eat_punctuation(Punctuation::RBrace)? {
                proof {
                    if simple {
                        if i < lens.len() {
                            lemma_items_next(old(self), &h, 2, lens, i);
                        }
                        assert(lens.take(i) =~= lens);
                        FileParser::lemma_skipped_trans(
                            old(self),
                            &h,
                            self,
                            2 + crate::parser::expression::lens_sum(lens),
                            1,
                        );
                        assert forall|m: int| 0 <= m < lens.len() implies #[trigger] item_recorded(
                            old(self),
                            old(self).spec_scope().push(name@),
                            self.item_table,
                            2 + crate::parser::expression::lens_sum(lens.take(m)),
                        ) by {
                            lemma_recorded_grows(
                                old(self),
                                old(self).spec_scope().push(name@),
                                h.item_table,
                                self.item_table,
                                2 + crate::parser::expression::lens_sum(lens.take(m)),
                            );
                        }
                    }
                }
                break;
            }
            let ghost a = *self;
            self.enter(name.duplicate());
            let ghost a2 = *self;
            proof {
                if simple {
                    assert forall|k: nat| #[trigger] a2.tokens(k) == h.tokens(k + 0) by {
                        assert(a2.tokens(k) == a.tokens(k));
                    }
                    lemma_item_same(&h, &a2, lens[i]);
                }
            }
            let res = self.parse_item();
            let ghost b2 = *self;
            self.leave();
            proof {
                FileParser::lemma_subscope(&a, &a2, &b2, self);
            }
            res?;
            proof {
                if simple {
                    let pos = 2 + crate::parser::expression::lens_sum(lens.take(i));
                    let (mid, item) = choose|mid: FileParser, item: Item|
                        #[trigger] FileParser::declared_last(&mid, &b2, a2.spec_scope().push(item.spec_name()@), item)
                            && item_begins(&a2, item) && item.span.start.spec_index()
                            == a2.lexer.spec_input().spec_index() && item.span.end.spec_index()
                            == b2.lexer.spec_input().spec_index() && exists|c: FileParser|
                            #[trigger] item_kind_of_rest(&c, a2.tokens(visibility_len(&a2)), item.kind)
                                && FileParser::skipped(&a2, &c, visibility_len(&a2) + 1);
                    let c = choose|c: FileParser|
                        #[trigger] item_kind_of_rest(&c, a2.tokens(visibility_len(&a2)), item.kind)
                            && FileParser::skipped(&a2, &c, visibility_len(&a2) + 1);
                    assert(FileParser::skipped(old(self), &a2, pos)) by {
                        assert forall|k: nat| #[trigger] a2.tokens(k) == old(self).tokens(k + pos) by {
                            assert(a2.tokens(k) == h.tokens(k + 0));
                        }
                    }
                    assert(item_read_at(old(self), &a2, &c, pos, item));
                    let sc = old(self).spec_scope().push(name@);
                    assert(a2.spec_scope() == sc);
                    let entry = (sc.push(item.spec_name()@), item);
                    let dl = self.item_table.spec_declared();
                    let du = self.item_table.spec_duplicated();
                    if mid.item_table.spec_lookup(entry.0) is Some {
                        assert(du[du.len() - 1] == entry);
                    } else {
                        assert(dl[dl.len() - 1] == entry);
                    }
                    assert(item_recorded(old(self), sc, self.item_table, pos));
                    assert forall|m: int| 0 <= m < i implies #[trigger] item_recorded(
                        old(self),
                        sc,
                        self.item_table,
                        2 + crate::parser::expression::lens_sum(lens.take(m)),
                    ) by {
                        lemma_recorded_grows(
                            old(self),
                            sc,
                            h.item_table,
                            self.item_table,
                            2 + crate::parser::expression::lens_sum(lens.take(m)),
                        );
                    }
                    assert forall|k: nat| #[trigger] self.tokens(k) == old(self).tokens(
                        k + (2 + crate::parser::expression::lens_sum(lens.take(i + 1))),
                    ) by {
                        assert(self.tokens(k) == b2.tokens(k));
                        assert(b2.tokens(k) == a2.tokens(k + lens[i]));
                        assert(a2.tokens(k + lens[i]) == h.tokens(k + lens[i]));
                        assert(lens.take(i + 1).drop_last() =~= lens.take(i));
                    }
                }
                i = i + 1;
            }
        }
        proof {
            assert(first_name(old(self)) == name@);
            assert forall|l: Seq<nat>| #[trigger] module_tokens(old(self), l) implies l == lens by {
                lemma_module_unique(old(self), l, lens);
            }
        }
        Ok(Module::Inline(name))
    }

    /// Parses the top-level module: items up to the end of input. Where the tokens are items as
    /// [top_tokens] has them, each of them is recorded in the table, as [item_recorded] has it.
    #[verifier::rlimit(30)]
    pub fn parse_top_module(&mut self, name: Identifier) -> (r: Result<Module, ParserError>)
        requires
            old(self).wf(),
        ensures
            FileParser::advanced(old(self), final(self)),
            FileParser::reported(old(self), final(self), r),
            r is Ok ==> r == Ok::<Module, ParserError>(Module::Inline(name))
                && final(self).lexer.lookahead().0 == Ok::<SpecToken, SpecLexerError>(SpecToken::Eof),
            (exists|lens: Seq<nat>| #[trigger] top_tokens(old(self), lens)) ==> r is Ok,
            forall|lens: Seq<nat>|
                #[trigger] top_tokens(old(self), lens) ==> files_added(
                    old(self).spec_pending(),
                    final(self).spec_pending(),
                    module_files(old(self), old(self).spec_scope(), lens),
                ),
            forall|lens: Seq<nat>, i: int|
                top_tokens(old(self), lens) && 0 <= i < lens.len() ==> #[trigger] item_recorded(
                    old(self),
                    old(self).spec_scope(),
                    final(self).item_table,
                    crate::parser::expression::lens_sum(lens.take(i)),
                ),
    {
        let ghost simple = exists|lens: Seq<nat>| #[trigger] top_tokens(old(self), lens);
        let ghost lens = choose|lens: Seq<nat>| top_tokens(old(self), lens);
        let ghost mut i: int = 0;
        proof {
            FileParser::lemma_advanced_refl(self);
            crate::parser::operator_expression::infix::lemma_skipped_none(self);
            assert(lens.take(0) =~= Seq::<nat>::empty());
            assert(old(self).spec_pending().subrange(0, old(self).spec_pending().len() as int)
                =~= old(self).spec_pending());
        }
        loop
            invariant_except_break
                simple ==> 0 <= i <= lens.len() && FileParser::skipped(
                    old(self),
                    self,
                    crate::parser::expression::lens_sum(lens.take(i)),
                ),
            invariant
                FileParser::advanced(old(self), self),
                simple == exists|lens: Seq<nat>| #[trigger] top_tokens(old(self), lens),
                simple ==> top_tokens(old(self), lens),
                simple ==> 0 <= i <= lens.len(),
                simple ==> files_added(
                    old(self).spec_pending(),
                    self.spec_pending(),
                    module_files(old(self), old(self).spec_scope(), lens.take(i)),
                ),
                simple ==> forall|m: int|
                    0 <= m < i ==> #[trigger] item_recorded(
                        old(self),
                        old(self).spec_scope(),
                        self.item_table,
                        crate::parser::expression::lens_sum(lens.take(m)),
                    ),
            ensures
                FileParser::advanced(old(self), self),
                self.lexer.lookahead().0 == Ok::<SpecToken, SpecLexerError>(SpecToken::Eof),
                simple ==> i == lens.len(),
            decreases self.lexer.remaining(),
        {
            let ghost h = *self;
            proof {
                if simple {
                    if i < lens.len() {
                        lemma_items_next(old(self), &h, 0, lens, i);
                    } else {
                        assert(lens.take(i) =~= lens);
                        assert(h.tokens(0) == old(self).tokens(0 + crate::parser::expression::lens_sum(lens)));
                    }
                }
            }
            if self.is_eof() {
                proof {
                    if simple {
                        assert forall|m: int| 0 <= m < i implies #[trigger] item_recorded(
                            old(self),
                            old(self).spec_scope(),
                            self.item_table,
                            crate::parser::expression::lens_sum(lens.take(m)),
                        ) by {
                            lemma_recorded_grows(old(self), old(self).spec_scope(), h.item_table, self.item_table, crate::parser::expression::lens_sum(lens.take(m)));
                        }
                        if i < lens.len() {
                            lemma_items_next(old(self), &h, 0, lens, i);
                            lemma_item_first(&h, lens[i]);
                        }
                    }
                }
                break;
            }
            let ghost a = *self;
            proof {
                if simple {
                    assert forall|k: nat| #[trigger] a.tokens(k) == h.tokens(k + 0) by {}
                    lemma_item_same(&h, &a, lens[i]);
                }
            }
            self.parse_item()?;
            proof {
                if simple {
                    let pos = crate::parser::expression::lens_sum(lens.take(i));
                    let (mid, item) = choose|mid: FileParser, item: Item|
                        #[trigger] FileParser::declared_last(&mid, self, a.spec_scope().push(item.spec_name()@), item)
                            && item_begins(&a, item) && item.span.start.spec_index()
                            == a.lexer.spec_input().spec_index() && item.span.end.spec_index()
                            == self.lexer.spec_input().spec_index() && exists|c: FileParser|
                            #[trigger] item_kind_of_rest(&c, a.tokens(visibility_len(&a)), item.kind)
                                && FileParser::skipped(&a, &c, visibility_len(&a) + 1);
                    let c = choose|c: FileParser|
                        #[trigger] item_kind_of_rest(&c, a.tokens(visibility_len(&a)), item.kind)
                            && FileParser::skipped(&a, &c, visibility_len(&a) + 1);
                    assert(FileParser::skipped(old(self), &a, pos)) by {
                        assert forall|k: nat| #[trigger] a.tokens(k) == old(self).tokens(k + pos) by {
                            assert(a.tokens(k) == h.tokens(k));
                        }
                    }
                    assert(item_read_at(old(self), &a, &c, pos, item));
                    let entry = (old(self).spec_scope().push(item.spec_name()@), item);
                    let dl = self.item_table.spec_declared();
                    let du = self.item_table.spec_duplicated();
                    if mid.item_table.spec_lookup(entry.0) is Some {
                        assert(du[du.len() - 1] == entry);
                    } else {
                        assert(dl[dl.len() - 1] == entry);
                    }
                    assert(item_recorded(old(self), old(self).spec_scope(), self.item_table, pos));
                    assert forall|m: int| 0 <= m < i implies #[trigger] item_recorded(
                        old(self),
                        old(self).spec_scope(),
                        self.item_table,
                        crate::parser::expression::lens_sum(lens.take(m)),
                    ) by {
                        lemma_recorded_grows(old(self), old(self).spec_scope(), h.item_table, self.item_table, crate::parser::expression::lens_sum(lens.take(m)));
                    }
                    assert(a.tokens(0) == old(self).tokens(0 + pos));
                    assert(a.tokens(1) == old(self).tokens(1 + pos));
                    assert(a.tokens(2) == old(self).tokens(2 + pos));
                    assert(item_files_at(&a, a.spec_scope(), 0) == item_files_at(old(self), old(self).spec_scope(), pos));
                    assert(lens.take(i + 1).drop_last() =~= lens.take(i));
                    lemma_files_added_trans(
                        old(self).spec_pending(),
                        a.spec_pending(),
                        self.spec_pending(),
                        module_files(old(self), old(self).spec_scope(), lens.take(i)),
                        item_files_at(old(self), old(self).spec_scope(), pos),
                    );
                    assert forall|k: nat| #[trigger] self.tokens(k) == old(self).tokens(
                        k + crate::parser::expression::lens_sum(lens.take(i + 1)),
                    ) by {
                        assert(self.tokens(k) == a.tokens(k + lens[i]));
                        assert(a.tokens(k + lens[i]) == h.tokens(k + lens[i]));
                        assert(lens.take(i + 1).drop_last() =~= lens.take(i));
                    }
                }
                i = i + 1;
            }
        }
        proof {
            if simple {
                assert(lens.take(lens.len() as int) =~= lens);
            }
            assert forall|l: Seq<nat>| #[trigger] top_tokens(old(self), l) implies files_added(
                old(self).spec_pending(),
                self.spec_pending(),
                module_files(old(self), old(self).spec_scope(), l),
            ) by {
                lemma_top_unique(old(self), l, lens);
            }
            assert forall|l: Seq<nat>, m: int| top_tokens(old(self), l) && 0 <= m < l.len() implies #[trigger] item_recorded(
                old(self),
                old(self).spec_scope(),
                self.item_table,
                crate::parser::expression::lens_sum(l.take(m)),
            ) by {
                lemma_top_unique(old(self), l, lens);
            }
        }
        Ok(Module::Inline(name))
    }

    /// Parses a structure: `NAME { FIELD: TYPE, ... }`, a comma after the last field being
    /// optional. Keyword `struct` is expected to be consumed beforehand. Tokens as
    /// [struct_tokens] has them are read whole.
    pub fn parse_struct(&mut self) -> (r: Result<Struct, ParserError>)
        requires
            old(self).wf(),
        ensures
            final(self).spec_pending() == old(self).spec_pending(),
            FileParser::advanced(old(self), final(self)),
            FileParser::reported(old(self), final(self), r),
            FileParser::consumed(old(self), final(self), r),
            r matches Ok(s) ==> {
                &&& old(self).tokens(0) == ident_token(s.name@)
                &&& old(self).tokens(1) == punct_token(Punctuation::LBrace)
                &&& typed_list(old(self), 2, field_pairs(s.fields@))
                &&& list_closed(old(self), 2, s.fields@.len(), Punctuation::RBrace)
            },
            forall|pairs: Seq<(Seq<char>, Seq<char>)>|
                #[trigger] struct_tokens(old(self), pairs) ==> (r matches Ok(s) && field_pairs(s.fields@)
                    == pairs) && FileParser::skipped(
                    old(self),
                    final(self),
                    list_end(old(self), 2, pairs.len(), Punctuation::RBrace),
                ),
    {
        let ghost simple = exists|pairs: Seq<(Seq<char>, Seq<char>)>| #[trigger] struct_tokens(old(self), pairs);
        let ghost pairs = choose|pairs: Seq<(Seq<char>, Seq<char>)>| struct_tokens(old(self), pairs);
        proof {
            if simple {
                assert forall|q: Seq<(Seq<char>, Seq<char>)>| #[trigger] struct_tokens(old(self), q) implies q
                    == pairs by {
                    lemma_typed_list_unique(old(self), 2, Punctuation::RBrace, q, pairs);
                }
            }
        }
        let ghost s0 = *self;
        let name = self.expect_identifier()?;
        let ghost s1 = *self;
        let mut fields: Vec<Field> = Vec::new();
        self.expect_punctuation(Punctuation::LBrace)?;
        proof {
            FileParser::lemma_skipped_trans(&s0, &s1, self, 1, 1);
            assert(field_pairs(fields@) =~= Seq::<(Seq<char>, Seq<char>)>::empty());
            assert(pairs.take(0) =~= Seq::<(Seq<char>, Seq<char>)>::empty());
        }
        loop
            invariant_except_break
                FileParser::skipped(old(self), self, 2 + 4 * fields@.len()),
                fields@.len() > 0 ==> old(self).tokens((1 + 4 * fields@.len()) as nat) == punct_token(
                    Punctuation::Comma,
                ),
                simple ==> fields@.len() <= pairs.len() && field_pairs(fields@) == pairs.take(
                    fields@.len() as int,
                ),
            invariant
                self.spec_pending() == old(self).spec_pending(),
                simple == exists|pairs: Seq<(Seq<char>, Seq<char>)>| #[trigger] struct_tokens(old(self), pairs),
                simple ==> struct_tokens(old(self), pairs),
                simple ==> forall|q: Seq<(Seq<char>, Seq<char>)>| #[trigger] struct_tokens(old(self), q) ==> q
                    == pairs,
                FileParser::advanced(old(self), self),
                self.lexer.remaining() < old(self).lexer.remaining(),
                old(self).tokens(0) == ident_token(name@),
                old(self).tokens(1) == punct_token(Punctuation::LBrace),
                typed_list(old(self), 2, field_pairs(fields@)),
            ensures
                FileParser::advanced(old(self), self),
                self.lexer.remaining() < old(self).lexer.remaining(),
                old(self).tokens(0) == ident_token(name@),
                old(self).tokens(1) == punct_token(Punctuation::LBrace),
                typed_list(old(self), 2, field_pairs(fields@)),
                list_closed(old(self), 2, fields@.len(), Punctuation::RBrace),
                simple ==> field_pairs(fields@) == pairs && FileParser::skipped(
                    old(self),
                    self,
                    list_end(old(self), 2, pairs.len(), Punctuation::RBrace),
                ),
            decreases self.lexer.remaining(),
        {
            let ghost t0 = *self;
            let ghost k = fields@.len();
            proof {
                if simple {
                    assert(t0.tokens(0) == old(self).tokens(0 + (2 + 4 * k) as nat));
                    assert(t0.tokens(1) == old(self).tokens(1 + (2 + 4 * k) as nat));
                    assert(t0.tokens(2) == old(self).tokens(2 + (2 + 4 * k) as nat));
                    if k < pairs.len() {
                        assert(old(self).tokens((2 + 4 * k) as nat) == ident_token(pairs[k as int].0));
                        assert(old(self).tokens((2 + 4 * k + 2) as nat) == ident_token(pairs[k as int].1));
                    } else if k > 0 {
                        assert(old(self).tokens((2 + 4 * k - 1) as nat) == punct_token(Punctuation::Comma));
                    }
                }
            }
            match self.parse_field()? {
                Some(field) => {
                    let ghost t1 = *self;
                    let ghost f = field;
                    let ghost pairs0 = field_pairs(fields@);
                    fields.push(field);
                    proof {
                        FileParser::lemma_skipped_trans(old(self), &t0, &t1, (2 + 4 * k) as nat, 3);
                        assert(field_pairs(fields@) =~= pairs0.push((f.name@, f.type_@)));
                        lemma_typed_list_push(old(self), 2, pairs0, (f.name@, f.type_@));
                        if simple {
                            assert(k < pairs.len());
                            assert(pairs.take((k + 1) as int) =~= pairs.take(k as int).push(pairs[k as int]));
                            assert(t1.tokens(0) == old(self).tokens(0 + (2 + 4 * k + 3) as nat));
                            if k + 1 < pairs.len() {
                                assert(old(self).tokens((2 + 4 * k + 3) as nat) == punct_token(Punctuation::Comma));
                            }
                        }
                    }
                    if self.eat_punctuation(Punctuation::RBrace)? {
                        proof {
                            assert(old(self).tokens((2 + 4 * k + 3) as nat) == punct_token(Punctuation::RBrace));
                            if simple {
                                assert(k + 1 == pairs.len());
                                assert(pairs.take((k + 1) as int) =~= pairs);
                                FileParser::lemma_skipped_trans(old(self), &t1, self, (2 + 4 * k + 3) as nat, 1);
                            }
                        }
                        break;
                    } else {
                        let ghost t2 = *self;
                        self.expect_punctuation(Punctuation::Comma)?;
                        proof {
                            FileParser::lemma_skipped_trans(old(self), &t1, &t2, (2 + 4 * k + 3) as nat, 0);
                            FileParser::lemma_skipped_trans(old(self), &t2, self, (2 + 4 * k + 3) as nat, 1);
                        }
                    }
                },
                None => {
                    proof {
                        if simple {
                            assert(k == pairs.len());
                            assert(pairs.take(k as int) =~= pairs);
                            FileParser::lemma_skipped_trans(old(self), &t0, self, (2 + 4 * k) as nat, 1);
                        }
                    }
                    break;
                },
            }
        }
        Ok(Struct { name, fields })
    }

    /// Parses a field of a structure, `NAME: TYPE`; gives `None` where the closing brace comes
    /// instead.
    fn parse_field(&mut self) -> (r: Result<Option<Field>, ParserError>)
        requires
            old(self).wf(),
        ensures
            final(self).spec_pending() == old(self).spec_pending(),
            FileParser::advanced(old(self), final(self)),
            FileParser::reported(old(self), final(self), r),
            FileParser::consumed(old(self), final(self), r),
            r matches Ok(Some(f)) ==> {
                &&& FileParser::skipped(old(self), final(self), 3)
                &&& old(self).tokens(0) == ident_token(f.name@)
                &&& old(self).tokens(1) == punct_token(Punctuation::Colon)
                &&& old(self).tokens(2) == ident_token(f.type_@)
            },
            r matches Ok(None) ==> FileParser::skipped(old(self), final(self), 1) && old(self).tokens(0)
                == punct_token(Punctuation::RBrace),
            (old(self).tokens(0) matches Ok(SpecToken::Identifier(_))) && old(self).tokens(1) == punct_token(
                Punctuation::Colon,
            ) && (old(self).tokens(2) matches Ok(SpecToken::Identifier(_))) ==> r matches Ok(Some(_)),
            old(self).tokens(0) == punct_token(Punctuation::RBrace) ==> r matches Ok(None),
    {
        let ghost s0 = *self;
        let first = self.eat_identifier()?;
        let ghost s1 = *self;
        let name = match first {
            Some(name) => name,
            None => {
                self.expect_punctuation(Punctuation::RBrace)?;
                proof {
                    FileParser::lemma_skipped_trans(&s0, &s1, self, 0, 1);
                }
                return Ok(None);
            },
        };
        proof {
            assert(s1.tokens(0) == s0.tokens(0 + 1));
        }
        self.expect_punctuation(Punctuation::Colon)?;
        let ghost s2 = *self;
        proof {
            FileParser::lemma_skipped_trans(&s0, &s1, &s2, 1, 1);
            assert(s2.tokens(0) == s0.tokens(0 + 2));
        }
        let type_ = self.expect_identifier()?;
        proof {
            FileParser::lemma_skipped_trans(&s0, &s1, &s2, 1, 1);
            FileParser::lemma_skipped_trans(&s0, &s2, self, 2, 1);
        }
        Ok(Some(Field { name, type_ }))
    }

    /// Parses a function: `NAME(PARAMS) -> TYPE { BODY }`, the return type being optional.
    /// Keyword `fn` is expected to be consumed beforehand. Tokens as [fn_tokens] has them are
    /// read whole.
    ///
    /// The body is parsed in the function's scope.
    #[verifier::rlimit(30)]
    pub fn parse_fn(&mut self) -> (r: Result<Function, ParserError>)
        requires
            old(self).wf(),
        ensures
            FileParser::advanced(old(self), final(self)),
            FileParser::reported(old(self), final(self), r),
            FileParser::consumed(old(self), final(self), r),
            r matches Ok(f) ==> {
                let end = list_end(old(self), 2, f.params@.len(), Punctuation::RParent);
                &&& old(self).tokens(0) == ident_token(f.name@)
                &&& old(self).tokens(1) == punct_token(Punctuation::LParent)
                &&& typed_list(old(self), 2, param_pairs(f.params@))
                &&& list_closed(old(self), 2, f.params@.len(), Punctuation::RParent)
                &&& return_type_at(old(self), end, f.return_type)
            },
            r is Ok ==> crate::parser::expression::closed_brace(old(self), final(self)),
            forall|pairs: Seq<(Seq<char>, Seq<char>)>, ret: Option<Seq<char>>, lens: Seq<nat>, tail: nat|
                #[trigger] fn_tokens(old(self), pairs, ret, lens, tail) ==> {
                    let e = list_end(old(self), 2, pairs.len(), Punctuation::RParent) + return_type_len(ret);
                    &&& r matches Ok(f)
                    &&& param_pairs(f.params@) == pairs
                    &&& (match f.return_type {
                        Some(t) => ret == Some(t@),
                        None => ret is None,
                    })
                    &&& crate::parser::control::nested_block_of_at(old(self), e, lens, tail, f.body)
                    &&& FileParser::skipped(old(self), final(self), e + crate::parser::expression::lens_sum(lens) + tail + 1)
                    &&& final(self).spec_pending() == old(self).spec_pending()
                },
        decreases old(self).lexer.remaining(), 0int,
    {
        let ghost simple = exists|pairs: Seq<(Seq<char>, Seq<char>)>, ret: Option<Seq<char>>, lens: Seq<nat>, tail: nat|
            #[trigger] fn_tokens(old(self), pairs, ret, lens, tail);
        let ghost w = choose|pairs: Seq<(Seq<char>, Seq<char>)>, ret: Option<Seq<char>>, lens: Seq<nat>, tail: nat|
            fn_tokens(old(self), pairs, ret, lens, tail);
        let ghost pairs = w.0;
        let ghost ret = w.1;
        let ghost e = list_end(old(self), 2, pairs.len(), Punctuation::RParent);
        let ghost eb = e + return_type_len(ret);
        proof {
            if simple {
                assert forall|q: Seq<(Seq<char>, Seq<char>)>, rt: Option<Seq<char>>, l: Seq<nat>, t: nat| #[trigger] fn_tokens(
                    old(self),
                    q,
                    rt,
                    l,
                    t,
                ) implies q == pairs && rt == ret by {
                    lemma_typed_list_unique(old(self), 2, Punctuation::RParent, q, pairs);
                    if rt != ret {
                        match (rt, ret) {
                            (Some(x), Some(y)) => {
                                assert(ident_token(x) == ident_token(y));
                            },
                            _ => {},
                        }
                    }
                }
            }
        }
        let ghost s0 = *self;
        let name = self.expect_identifier()?;
        let ghost s1 = *self;
        proof {
            if simple {
                assert(s1.tokens(0) == s0.tokens(0 + 1));
            }
        }
        self.expect_punctuation(Punctuation::LParent)?;
        let ghost s2 = *self;
        proof {
            if simple {
                FileParser::lemma_skipped_trans(&s0, &s1, &s2, 1, 1);
                lemma_typed_list_unshift(&s0, &s2, 2, pairs, Punctuation::RParent);
                lemma_list_end_shift(&s0, &s2, 2, pairs.len(), Punctuation::RParent);
            }
        }
        let params = self.parse_params()?;
        let ghost s3 = *self;
        proof {
            if simple {
                FileParser::lemma_skipped_trans(&s0, &s2, &s3, 2, (e - 2) as nat);
                assert(s3.tokens(0) == s0.tokens(0 + e));
                assert(s3.tokens(1) == s0.tokens(1 + e));
                assert(s3.tokens(2) == s0.tokens(2 + e));
            }
        }
        let return_type = self.parse_return_type()?;
        proof {
            FileParser::lemma_skipped_trans(&s0, &s1, &s2, 1, 1);
            lemma_typed_list_shift(&s0, &s2, 2, param_pairs(params@));
            lemma_list_closed_shift(&s0, &s2, 2, params@.len(), Punctuation::RParent);
            let e = list_end(&s2, 0, params@.len(), Punctuation::RParent);
            FileParser::lemma_skipped_trans(&s0, &s2, &s3, 2, e);
            lemma_list_end_shift(&s0, &s2, 2, params@.len(), Punctuation::RParent);
            lemma_return_type_shift(&s0, &s3, (2 + e) as nat, return_type);
        }
        let ghost a = *self;
        self.enter(name.duplicate());
        let ghost a2 = *self;
        proof {
            if simple {
                FileParser::lemma_skipped_trans(&s0, &s3, &a, e, return_type_len(ret));
                assert forall|k: nat| #[trigger] a2.tokens(k) == s0.tokens(k + eb) by {
                    assert(a2.tokens(k) == a.tokens(k));
                }
                assert forall|l: Seq<nat>, t: nat| #[trigger] crate::parser::control::nested_block_tokens_at(
                    &a2,
                    0,
                    l,
                    t,
                ) == crate::parser::control::nested_block_tokens_at(old(self), eb, l, t) && forall|
                    blk: crate::ast::expression::Block,
                | #[trigger] crate::parser::control::nested_block_of_at(&a2, 0, l, t, blk)
                    == crate::parser::control::nested_block_of_at(old(self), eb, l, t, blk) by {
                    crate::parser::control::lemma_nested_block_shift(old(self), &a2, eb, 0, l, t);
                    assert(eb + 0 == eb);
                }
                assert(crate::parser::control::nested_block_tokens_at(&a2, 0, w.2, w.3));
                assert forall|q: Seq<(Seq<char>, Seq<char>)>, rt: Option<Seq<char>>, l: Seq<nat>, t: nat| #[trigger] fn_tokens(
                    old(self),
                    q,
                    rt,
                    l,
                    t,
                ) implies l == w.2 && t == w.3 by {
                    crate::parser::control::lemma_nested_block_unique_at(&a2, 0, l, t, w.2, w.3);
                }
            }
        }
        let body = self.parse_block();
        let ghost b2 = *self;
        self.leave();
        proof {
            FileParser::lemma_subscope(&a, &a2, &b2, self);
        }
        proof {
            if body is Ok {
                crate::parser::expression::lemma_closed_brace_before(old(self), &a2, &b2);
                crate::parser::expression::lemma_closed_brace_same_lexer(old(self), &b2, self);
            }
        }
        let body = body?;
        proof {
            if simple {
                FileParser::lemma_skipped_trans(
                    &s0,
                    &a2,
                    &b2,
                    eb,
                    crate::parser::expression::lens_sum(w.2) + w.3 + 1,
                );
                assert forall|k: nat| #[trigger] self.tokens(k) == s0.tokens(
                    k + (eb + crate::parser::expression::lens_sum(w.2) + w.3 + 1),
                ) by {
                    assert(self.tokens(k) == b2.tokens(k));
                }
            }
        }
        Ok(Function { name, params, return_type, body })
    }

    /// Parses parameters: `NAME: TYPE, ...)`, a comma after the last parameter being optional.
    /// Opening parenthesis is expected to be consumed beforehand.
    fn parse_params(&mut self) -> (r: Result<Vec<Parameter>, ParserError>)
        requires
            old(self).wf(),
        ensures
            final(self).spec_pending() == old(self).spec_pending(),
            FileParser::advanced(old(self), final(self)),
            FileParser::reported(old(self), final(self), r),
            FileParser::consumed(old(self), final(self), r),
            r matches Ok(params) ==> {
                &&& typed_list(old(self), 0, param_pairs(params@))
                &&& list_closed(old(self), 0, params@.len(), Punctuation::RParent)
                &&& FileParser::skipped(
                    old(self),
                    final(self),
                    list_end(old(self), 0, params@.len(), Punctuation::RParent),
                )
            },
            forall|pairs: Seq<(Seq<char>, Seq<char>)>|
                #[trigger] typed_list(old(self), 0, pairs) && list_closed(
                    old(self),
                    0,
                    pairs.len(),
                    Punctuation::RParent,
                ) ==> (r matches Ok(params) && param_pairs(params@) == pairs),
    {
        let ghost simple = exists|pairs: Seq<(Seq<char>, Seq<char>)>|
            #[trigger] typed_list(old(self), 0, pairs) && list_closed(old(self), 0, pairs.len(), Punctuation::RParent);
        let ghost pairs = choose|pairs: Seq<(Seq<char>, Seq<char>)>|
            #[trigger] typed_list(old(self), 0, pairs) && list_closed(old(self), 0, pairs.len(), Punctuation::RParent);
        proof {
            if simple {
                assert forall|q: Seq<(Seq<char>, Seq<char>)>| #[trigger] typed_list(old(self), 0, q) && list_closed(
                    old(self),
                    0,
                    q.len(),
                    Punctuation::RParent,
                ) implies q == pairs by {
                    lemma_typed_list_unique(old(self), 0, Punctuation::RParent, q, pairs);
                }
            }
        }
        let mut params: Vec<Parameter> = Vec::new();
        proof {
            FileParser::lemma_advanced_refl(self);
            assert(param_pairs(params@) =~= Seq::<(Seq<char>, Seq<char>)>::empty());
            assert(pairs.take(0) =~= Seq::<(Seq<char>, Seq<char>)>::empty());
            assert forall|k: nat| #[trigger] self.tokens(k) == old(self).tokens(k + 0) by {
                assert(k + 0 == k);
            }
        }
        loop
            invariant_except_break
                FileParser::skipped(old(self), self, 4 * params@.len()),
                params@.len() > 0 ==> old(self).tokens((4 * params@.len() - 1) as nat) == punct_token(
                    Punctuation::Comma,
                ),
                simple ==> params@.len() <= pairs.len() && param_pairs(params@) == pairs.take(
                    params@.len() as int,
                ),
            invariant
                self.spec_pending() == old(self).spec_pending(),
                FileParser::advanced(old(self), self),
                typed_list(old(self), 0, param_pairs(params@)),
                simple == exists|pairs: Seq<(Seq<char>, Seq<char>)>|
                    #[trigger] typed_list(old(self), 0, pairs) && list_closed(old(self), 0, pairs.len(), Punctuation::RParent),
                simple ==> typed_list(old(self), 0, pairs) && list_closed(old(self), 0, pairs.len(), Punctuation::RParent),
                simple ==> forall|q: Seq<(Seq<char>, Seq<char>)>| #[trigger] typed_list(old(self), 0, q) && list_closed(
                    old(self),
                    0,
                    q.len(),
                    Punctuation::RParent,
                ) ==> q == pairs,
            ensures
                FileParser::advanced(old(self), self),
                self.lexer.remaining() < old(self).lexer.remaining(),
                typed_list(old(self), 0, param_pairs(params@)),
                simple ==> param_pairs(params@) == pairs,
                list_closed(old(self), 0, params@.len(), Punctuation::RParent),
                FileParser::skipped(
                    old(self),
                    self,
                    list_end(old(self), 0, params@.len(), Punctuation::RParent),
                ),
            decreases self.lexer.remaining(),
        {
            let ghost k = params@.len();
            let ghost t0 = *self;
            proof {
                if simple {
                    assert(t0.tokens(0) == old(self).tokens(0 + (4 * k) as nat));
                    assert(t0.tokens(1) == old(self).tokens(1 + (4 * k) as nat));
                    assert(t0.tokens(2) == old(self).tokens(2 + (4 * k) as nat));
                    if k < pairs.len() {
                        assert(old(self).tokens((0 + 4 * k) as nat) == ident_token(pairs[k as int].0));
                        assert(old(self).tokens((0 + 4 * k + 2) as nat) == ident_token(pairs[k as int].1));
                    } else if k > 0 {
                        assert(old(self).tokens((0 + 4 * k - 1) as nat) == punct_token(Punctuation::Comma));
                    }
                }
            }
            let start = self.location();
            let token = self.next_token()?;
            let ghost t1 = *self;
            proof {
                FileParser::lemma_skipped_trans(old(self), &t0, &t1, (4 * k) as nat, 1);
            }
            let name = match token {
                Token::Identifier(ident) => Identifier(ident),
                Token::Punctuation(Punctuation::RParent) => {
                    proof {
                        if simple {
                            assert(k == pairs.len());
                            assert(pairs.take(k as int) =~= pairs);
                        }
                    }
                    break;
                },
                token => {
                    let expected = vec![
                        ExpectedToken::Identifier,
                        ExpectedToken::Punctuation(Punctuation::RParent),
                    ];
                    let message = token_mismatch(&expected, &token);
                    self.report(start, message);
                    return Err(ParserError::UnexpectedToken(token));
                },
            };
            self.expect_punctuation(Punctuation::Colon)?;
            let ghost t2 = *self;
            let type_ = self.expect_identifier()?;
            let ghost t3 = *self;
            let ghost pairs0 = param_pairs(params@);
            let ghost pe = (name@, type_@);
            params.push(Parameter { name, type_ });
            proof {
                FileParser::lemma_skipped_trans(old(self), &t1, &t2, (4 * k + 1) as nat, 1);
                FileParser::lemma_skipped_trans(old(self), &t2, &t3, (4 * k + 2) as nat, 1);
                assert(param_pairs(params@) =~= pairs0.push(pe));
                lemma_typed_list_push(old(self), 0, pairs0, pe);
                if simple {
                    assert(k < pairs.len());
                    assert(pairs.take((k + 1) as int) =~= pairs.take(k as int).push(pairs[k as int]));
                    assert(t3.tokens(0) == old(self).tokens(0 + (4 * k + 3) as nat));
                    if k + 1 < pairs.len() {
                        assert(old(self).tokens((0 + 4 * k + 3) as nat) == punct_token(Punctuation::Comma));
                    }
                }
            }
            if self.eat_punctuation(Punctuation::RParent)? {
                proof {
                    if simple {
                        assert(k + 1 == pairs.len());
                        assert(pairs.take((k + 1) as int) =~= pairs);
                    }
                }
                break;
            } else {
                let ghost t4 = *self;
                self.expect_punctuation(Punctuation::Comma)?;
                proof {
                    FileParser::lemma_skipped_trans(old(self), &t3, &t4, (4 * k + 3) as nat, 0);
                    FileParser::lemma_skipped_trans(old(self), &t4, self, (4 * k + 3) as nat, 1);
                }
            }
        }
        Ok(params)
    }

    /// Parses the return type, if any, and the opening brace of the body that follows it.
    fn parse_return_type(&mut self) -> (r: Result<Option<Identifier>, ParserError>)
        requires
            old(self).wf(),
        ensures
            final(self).spec_pending() == old(self).spec_pending(),
            FileParser::advanced(old(self), final(self)),
            FileParser::reported(old(self), final(self), r),
            FileParser::consumed(old(self), final(self), r),
            r matches Ok(t) ==> return_type_at(old(self), 0, t) && FileParser::skipped(
                old(self),
                final(self),
                if t is Some { 3 } else { 1 },
            ),
            old(self).tokens(0) == punct_token(Punctuation::Arrow) && (old(self).tokens(1) matches Ok(
                SpecToken::Identifier(_),
            )) && old(self).tokens(2) == punct_token(Punctuation::LBrace) ==> (r matches Ok(Some(_))),
            match old(self).lexer.lookahead().0 {
                Ok(SpecToken::Punctuation(Punctuation::Arrow)) => true,
                Ok(SpecToken::Punctuation(Punctuation::LBrace)) => r == Ok::<
                    Option<Identifier>,
                    ParserError,
                >(None),
                Ok(t) => r matches Err(ParserError::UnexpectedToken(f)) && f@ == t
                    && final(self).errors().last().message@ == spec_token_mismatch(
                    seq![
                        ExpectedToken::Punctuation(Punctuation::Arrow),
                        ExpectedToken::Punctuation(Punctuation::LBrace),
                    ],
                    t,
                ),
                Err(e) => r matches Err(ParserError::LexerError(x)) && x@ == e,
            },
    {
        let start = self.location();
        let ghost s0 = *self;
        let first = self.next_token()?;
        let ghost s1 = *self;
        match first {
            Token::Punctuation(Punctuation::Arrow) => {
                proof {
                    assert(s1.tokens(0) == s0.tokens(0 + 1));
                }
                let return_type = self.expect_identifier()?;
                let ghost s2 = *self;
                proof {
                    FileParser::lemma_skipped_trans(&s0, &s1, &s2, 1, 1);
                    assert(s2.tokens(0) == s0.tokens(0 + 2));
                }
                self.expect_punctuation(Punctuation::LBrace)?;
                proof {
                    FileParser::lemma_skipped_trans(&s0, &s1, &s2, 1, 1);
                    FileParser::lemma_skipped_trans(&s0, &s2, self, 2, 1);
                }
                Ok(Some(return_type))
            },
            Token::Punctuation(Punctuation::LBrace) => Ok(None),
            token => {
                let expected = vec![
                    ExpectedToken::Punctuation(Punctuation::Arrow),
                    ExpectedToken::Punctuation(Punctuation::LBrace),
                ];
                proof {
                    assert(expected@ =~= seq![
                        ExpectedToken::Punctuation(Punctuation::Arrow),
                        ExpectedToken::Punctuation(Punctuation::LBrace),
                    ]);
                }
                let message = token_mismatch(&expected, &token);
                self.report(start, message);
                Err(ParserError::UnexpectedToken(token))
            },
        }
    }
}

/// The tokens of `p` are a structure after `struct`: a name, `{`, the fields `NAME: TYPE` of
/// `pairs` separated by commas, optionally a comma after the last, and `}`.
pub open spec fn struct_tokens(p: &FileParser, pairs: Seq<(Seq<char>, Seq<char>)>) -> bool {
    &&& (p.tokens(0) matches Ok(SpecToken::Identifier(_)))
    &&& p.tokens(1) == punct_token(Punctuation::LBrace)
    &&& typed_list(p, 2, pairs)
    &&& list_closed(p, 2, pairs.len(), Punctuation::RBrace)
}

/// A list of pairs closed by `close`, which is neither a comma nor a name, is written in one way
/// only.
pub proof fn lemma_typed_list_unique(
    p: &FileParser,
    at: nat,
    close: Punctuation,
    pairs1: Seq<(Seq<char>, Seq<char>)>,
    pairs2: Seq<(Seq<char>, Seq<char>)>,
)
    requires
        close != Punctuation::Comma,
        typed_list(p, at, pairs1),
        list_closed(p, at, pairs1.len(), close),
        typed_list(p, at, pairs2),
        list_closed(p, at, pairs2.len(), close),
    ensures
        pairs1 == pairs2,
{
    if pairs1.len() < pairs2.len() {
        lemma_list_longer(p, at, close, pairs1, pairs2);
    } else if pairs2.len() < pairs1.len() {
        lemma_list_longer(p, at, close, pairs2, pairs1);
    } else {
        assert forall|i: int| 0 <= i < pairs1.len() implies pairs1[i] == pairs2[i] by {
            assert(p.tokens((at + 4 * i) as nat) == ident_token(pairs1[i].0));
            assert(p.tokens((at + 4 * i) as nat) == ident_token(pairs2[i].0));
            assert(p.tokens((at + 4 * i + 2) as nat) == ident_token(pairs1[i].1));
            assert(p.tokens((at + 4 * i + 2) as nat) == ident_token(pairs2[i].1));
        }
        assert(pairs1 =~= pairs2);
    }
}

/// A closed list is no beginning of a longer one.
proof fn lemma_list_longer(
    p: &FileParser,
    at: nat,
    close: Punctuation,
    short: Seq<(Seq<char>, Seq<char>)>,
    long: Seq<(Seq<char>, Seq<char>)>,
)
    requires
        close != Punctuation::Comma,
        list_closed(p, at, short.len(), close),
        typed_list(p, at, long),
    ensures
        long.len() <= short.len(),
{
    let n = short.len();
    if n < long.len() {
        assert(p.tokens((at + 4 * n) as nat) == ident_token(long[n as int].0));
        if n > 0 {
            assert(p.tokens((at + 4 * (n - 1) + 3) as nat) == punct_token(Punctuation::Comma));
            assert((at + 4 * (n - 1) + 3) as nat == (at + 4 * n - 1) as nat);
            assert(((at + 4 * n - 1) as nat + 1) as nat == (at + 4 * n) as nat);
        }
    }
}

/// A list written from the token `n` on is one written from the start of a parser `n` tokens
/// further on.
pub proof fn lemma_typed_list_unshift(
    a: &FileParser,
    b: &FileParser,
    n: nat,
    pairs: Seq<(Seq<char>, Seq<char>)>,
    close: Punctuation,
)
    requires
        FileParser::skipped(a, b, n),
        typed_list(a, n, pairs),
        list_closed(a, n, pairs.len(), close),
    ensures
        typed_list(b, 0, pairs),
        list_closed(b, 0, pairs.len(), close),
{
    assert forall|i: int| 0 <= i < pairs.len() implies {
        &&& b.tokens((0 + 4 * i) as nat) == ident_token((#[trigger] pairs[i]).0)
        &&& b.tokens((0 + 4 * i + 1) as nat) == punct_token(Punctuation::Colon)
        &&& b.tokens((0 + 4 * i + 2) as nat) == ident_token(pairs[i].1)
    } by {
        assert(b.tokens((0 + 4 * i) as nat) == a.tokens(((0 + 4 * i) as nat + n) as nat));
        assert(b.tokens((0 + 4 * i + 1) as nat) == a.tokens(((0 + 4 * i + 1) as nat + n) as nat));
        assert(b.tokens((0 + 4 * i + 2) as nat) == a.tokens(((0 + 4 * i + 2) as nat + n) as nat));
    }
    assert forall|i: int| 0 <= i < pairs.len() - 1 implies #[trigger] b.tokens((0 + 4 * i + 3) as nat)
        == punct_token(Punctuation::Comma) by {
        assert(b.tokens((0 + 4 * i + 3) as nat) == a.tokens(((0 + 4 * i + 3) as nat + n) as nat));
        assert(a.tokens((n + 4 * i + 3) as nat) == punct_token(Punctuation::Comma));
    }
    if pairs.len() == 0 {
        assert(b.tokens(0) == a.tokens(0 + n));
    } else {
        let end = (4 * pairs.len() - 1) as nat;
        assert(b.tokens(end) == a.tokens(end + n));
        assert(b.tokens(end + 1) == a.tokens(end + 1 + n));
        assert((n + 4 * pairs.len() - 1) as nat == end + n);
    }
}

/// Tokens that a return type takes with the `{` after it: three with a type, one without.
pub open spec fn return_type_len(ret: Option<Seq<char>>) -> nat {
    if ret is Some {
        3
    } else {
        1
    }
}

/// The tokens of `p` are a function after `fn`: a name, `(`, the parameters of `pairs`, `)`,
/// the return type `ret` with the `{` after it, and the rest of a block as
/// [nested_block_tokens_at](crate::parser::control::nested_block_tokens_at) has it: its statements
/// may be blocks, conditionals and loops.
pub open spec fn fn_tokens(
    p: &FileParser,
    pairs: Seq<(Seq<char>, Seq<char>)>,
    ret: Option<Seq<char>>,
    lens: Seq<nat>,
    tail: nat,
) -> bool {
    let e = list_end(p, 2, pairs.len(), Punctuation::RParent);
    &&& (p.tokens(0) matches Ok(SpecToken::Identifier(_)))
    &&& p.tokens(1) == punct_token(Punctuation::LParent)
    &&& typed_list(p, 2, pairs)
    &&& list_closed(p, 2, pairs.len(), Punctuation::RParent)
    &&& match ret {
        None => p.tokens(e) == punct_token(Punctuation::LBrace),
        Some(t) => {
            &&& p.tokens(e) == punct_token(Punctuation::Arrow)
            &&& p.tokens(e + 1) == ident_token(t)
            &&& p.tokens(e + 2) == punct_token(Punctuation::LBrace)
        },
    }
    &&& crate::parser::control::nested_block_tokens_at(p, e + return_type_len(ret), lens, tail)
}

/// The token of an identifier.
pub open spec fn ident_token(name: Seq<char>) -> Result<SpecToken, SpecLexerError> {
    Ok(SpecToken::Identifier(name))
}

/// The token of a punctuation.
pub open spec fn punct_token(p: Punctuation) -> Result<SpecToken, SpecLexerError> {
    Ok(SpecToken::Punctuation(p))
}

/// Names and types of the fields.
pub open spec fn field_pairs(fields: Seq<Field>) -> Seq<(Seq<char>, Seq<char>)> {
    fields.map_values(|f: Field| (f.name@, f.type_@))
}

/// Names and types of the parameters.
pub open spec fn param_pairs(params: Seq<Parameter>) -> Seq<(Seq<char>, Seq<char>)> {
    params.map_values(|p: Parameter| (p.name@, p.type_@))
}

/// From the token `at` on, each pair is written `NAME: TYPE`, and each is followed by a comma
/// but the last.
pub open spec fn typed_list(p: &FileParser, at: nat, pairs: Seq<(Seq<char>, Seq<char>)>) -> bool {
    &&& forall|i: int|
        0 <= i < pairs.len() ==> {
            &&& p.tokens((at + 4 * i) as nat) == ident_token((#[trigger] pairs[i]).0)
            &&& p.tokens((at + 4 * i + 1) as nat) == punct_token(Punctuation::Colon)
            &&& p.tokens((at + 4 * i + 2) as nat) == ident_token(pairs[i].1)
        }
    &&& forall|i: int|
        0 <= i < pairs.len() - 1 ==> #[trigger] p.tokens((at + 4 * i + 3) as nat) == punct_token(
            Punctuation::Comma,
        )
}

/// A list of `n` pairs written from the token `at` on ends with `close`, right after the last
/// pair or after a comma that follows it.
pub open spec fn list_closed(p: &FileParser, at: nat, n: nat, close: Punctuation) -> bool {
    if n == 0 {
        p.tokens(at) == punct_token(close)
    } else {
        let end = (at + 4 * n - 1) as nat;
        p.tokens(end) == punct_token(close) || (p.tokens(end) == punct_token(Punctuation::Comma)
            && p.tokens(end + 1) == punct_token(close))
    }
}

pub proof fn lemma_typed_list_push(
    p: &FileParser,
    at: nat,
    pairs: Seq<(Seq<char>, Seq<char>)>,
    e: (Seq<char>, Seq<char>),
)
    requires
        typed_list(p, at, pairs),
        pairs.len() > 0 ==> p.tokens((at + 4 * pairs.len() - 1) as nat) == punct_token(Punctuation::Comma),
        p.tokens((at + 4 * pairs.len()) as nat) == ident_token(e.0),
        p.tokens((at + 4 * pairs.len() + 1) as nat) == punct_token(Punctuation::Colon),
        p.tokens((at + 4 * pairs.len() + 2) as nat) == ident_token(e.1),
    ensures
        typed_list(p, at, pairs.push(e)),
{
    let q = pairs.push(e);
    assert forall|i: int| 0 <= i < q.len() implies {
        &&& p.tokens((at + 4 * i) as nat) == ident_token((#[trigger] q[i]).0)
        &&& p.tokens((at + 4 * i + 1) as nat) == punct_token(Punctuation::Colon)
        &&& p.tokens((at + 4 * i + 2) as nat) == ident_token(q[i].1)
    } by {
        if i < pairs.len() {
            assert(q[i] == pairs[i]);
        }
    }
    assert forall|i: int| 0 <= i < q.len() - 1 implies #[trigger] p.tokens((at + 4 * i + 3) as nat)
        == punct_token(Punctuation::Comma) by {
        if i < pairs.len() - 1 {
        } else {
            assert(i == pairs.len() - 1);
            assert((at + 4 * i + 3) as nat == (at + 4 * pairs.len() - 1) as nat);
        }
    }
}

/// Position right after the closing token of a list of `n` pairs written from the token `at`
/// on.
pub open spec fn list_end(p: &FileParser, at: nat, n: nat, close: Punctuation) -> nat {
    if n == 0 {
        at + 1
    } else if p.tokens((at + 4 * n - 1) as nat) == punct_token(close) {
        at + 4 * n
    } else {
        at + 4 * n + 1
    }
}

/// From the token `at` on, the return type `t` is written: `-> TYPE {` for a type, `{` alone
/// for none.
pub open spec fn return_type_at(p: &FileParser, at: nat, t: Option<Identifier>) -> bool {
    match t {
        Some(t) => {
            &&& p.tokens(at) == punct_token(Punctuation::Arrow)
            &&& p.tokens(at + 1) == ident_token(t@)
            &&& p.tokens(at + 2) == punct_token(Punctuation::LBrace)
        },
        None => p.tokens(at) == punct_token(Punctuation::LBrace),
    }
}

pub proof fn lemma_typed_list_shift(a: &FileParser, b: &FileParser, n: nat, pairs: Seq<(Seq<char>, Seq<char>)>)
    requires
        FileParser::skipped(a, b, n),
        typed_list(b, 0, pairs),
    ensures
        typed_list(a, n, pairs),
{
    assert forall|i: int| 0 <= i < pairs.len() implies {
        &&& a.tokens((n + 4 * i) as nat) == ident_token((#[trigger] pairs[i]).0)
        &&& a.tokens((n + 4 * i + 1) as nat) == punct_token(Punctuation::Colon)
        &&& a.tokens((n + 4 * i + 2) as nat) == ident_token(pairs[i].1)
    } by {
        assert(b.tokens((0 + 4 * i) as nat) == a.tokens(((0 + 4 * i) as nat + n) as nat));
        assert(b.tokens((0 + 4 * i + 1) as nat) == a.tokens(((0 + 4 * i + 1) as nat + n) as nat));
        assert(b.tokens((0 + 4 * i + 2) as nat) == a.tokens(((0 + 4 * i + 2) as nat + n) as nat));
    }
    assert forall|i: int| 0 <= i < pairs.len() - 1 implies #[trigger] a.tokens((n + 4 * i + 3) as nat)
        == punct_token(Punctuation::Comma) by {
        assert(b.tokens((0 + 4 * i + 3) as nat) == a.tokens(((0 + 4 * i + 3) as nat + n) as nat));
    }
}

pub proof fn lemma_list_closed_shift(a: &FileParser, b: &FileParser, n: nat, len: nat, close: Punctuation)
    requires
        FileParser::skipped(a, b, n),
        list_closed(b, 0, len, close),
    ensures
        list_closed(a, n, len, close),
{
    if len == 0 {
        assert(b.tokens(0) == a.tokens(0 + n));
    } else {
        let end = (4 * len - 1) as nat;
        assert(b.tokens(end) == a.tokens(end + n));
        assert(b.tokens(end + 1) == a.tokens(end + 1 + n));
        assert((n + 4 * len - 1) as nat == end + n);
    }
}

pub proof fn lemma_list_end_shift(a: &FileParser, b: &FileParser, n: nat, len: nat, close: Punctuation)
    requires
        FileParser::skipped(a, b, n),
    ensures
        list_end(a, n, len, close) == n + list_end(b, 0, len, close),
{
    if len > 0 {
        let end = (4 * len - 1) as nat;
        assert(b.tokens(end) == a.tokens(end + n));
        assert((n + 4 * len - 1) as nat == end + n);
    }
}

pub proof fn lemma_return_type_shift(a: &FileParser, b: &FileParser, n: nat, t: Option<Identifier>)
    requires
        FileParser::skipped(a, b, n),
        return_type_at(b, 0, t),
    ensures
        return_type_at(a, n, t),
{
    assert(b.tokens(0) == a.tokens(0 + n));
    assert(b.tokens(1) == a.tokens(1 + n));
    assert(b.tokens(2) == a.tokens(2 + n));
}

} // verus!
