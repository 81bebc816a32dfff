//! How tokens are spelled, and the proof that the lexer reads a spelled text
//! back.

use vstd::prelude::*;

use crate::chars::{is_digit, is_whitespace, is_word_char};
use crate::error::ErrorView;
use crate::grammar::{parse_documents, Doc};
use crate::lexer::{next_token, run_end, tokens, tokens_from, Run};
use crate::notation::{
    all_fit, doc_tokens, entry_tokens, lemma_reads_documents, list_tokens, more_entries_tokens,
    more_items_tokens, object_tokens,
};
use crate::number::{all_digits, decimal_value, has_point_at, is_decimal, NumberView};
use crate::token::TokenView;

verus! {

/// Whether `text` spells `token`: a string between quotes and without a
/// quote inside, an integer in digits with any number of leading zeros, a
/// literal with a decimal point as it is kept, a bareword or a structural
/// character as it is. Nothing spells the end of the input or a lexeme that
/// is no token.
pub open spec fn spells(text: Seq<char>, token: TokenView) -> bool {
    match token {
        TokenView::Str(s) => !s.contains('"') && text == seq!['"'] + s + seq!['"'],
        TokenView::Num(NumberView::Integer(n)) => {
            &&& text.len() > 0
            &&& all_digits(text)
            &&& decimal_value(text) == n
            &&& n <= i64::MAX
        },
        TokenView::Num(NumberView::Decimal(written)) => {
            &&& text == written
            &&& is_decimal(text)
        },
        TokenView::False => text == seq!['f', 'a', 'l', 's', 'e'],
        TokenView::True => text == seq!['t', 'r', 'u', 'e'],
        TokenView::Null => text == seq!['n', 'u', 'l', 'l'],
        TokenView::LBrace => text == seq!['{'],
        TokenView::RBrace => text == seq!['}'],
        TokenView::LBracket => text == seq!['['],
        TokenView::RBracket => text == seq![']'],
        TokenView::Comma => text == seq![','],
        TokenView::Colon => text == seq![':'],
        TokenView::Eof => false,
        TokenView::IllegalIdent(_) => false,
    }
}

/// Whether `texts` spell `ts`, one by one.
pub open spec fn spell(texts: Seq<Seq<char>>, ts: Seq<TokenView>) -> bool {
    &&& texts.len() == ts.len()
    &&& forall|i: int| 0 <= i < ts.len() ==> spells(#[trigger] texts[i], ts[i])
}

/// Whether `gap` is made of whitespace only. It may be empty.
pub open spec fn is_blank(gap: Seq<char>) -> bool {
    forall|i: int| 0 <= i < gap.len() ==> is_whitespace(#[trigger] gap[i])
}

/// Whether `gaps` can stand around `texts`: one before each text and one
/// behind the last, each made of whitespace only.
pub open spec fn surround(gaps: Seq<Seq<char>>, texts: Seq<Seq<char>>) -> bool {
    &&& gaps.len() == texts.len() + 1
    &&& forall|i: int| 0 <= i < gaps.len() ==> is_blank(#[trigger] gaps[i])
}

/// The text made of `texts` with `gaps` around them: a gap, then each text
/// with a gap behind it.
pub open spec fn joined(gaps: Seq<Seq<char>>, texts: Seq<Seq<char>>) -> Seq<char>
    decreases texts.len(),
{
    if texts.len() == 0 {
        gaps[0]
    } else {
        gaps[0] + texts[0] + joined(gaps.skip(1), texts.skip(1))
    }
}

/// A token whose spelling has no mark of its end: a number or a bareword.
pub open spec fn is_bare(token: TokenView) -> bool {
    token is Num || token is True || token is False || token is Null
}

/// Whether the spelling of `token` ends where `c` follows it.
pub open spec fn stops_at(token: TokenView, c: char) -> bool {
    match token {
        TokenView::Num(NumberView::Integer(_)) => !is_digit(c) && c != '.',
        TokenView::Num(NumberView::Decimal(_)) => !is_digit(c),
        TokenView::True => !is_word_char(c),
        TokenView::False => !is_word_char(c),
        TokenView::Null => !is_word_char(c),
        _ => true,
    }
}

/// Whether each of `texts` ends where the text goes on behind it, be it with
/// whitespace or with the next of `texts`.
pub open spec fn separated(
    gaps: Seq<Seq<char>>,
    texts: Seq<Seq<char>>,
    ts: Seq<TokenView>,
) -> bool
    decreases texts.len(),
{
    if texts.len() == 0 {
        true
    } else {
        let behind = joined(gaps.skip(1), texts.skip(1));
        &&& behind.len() > 0 ==> stops_at(ts[0], behind[0])
        &&& separated(gaps.skip(1), texts.skip(1), ts.skip(1))
    }
}

/// Whether no two bare tokens stand side by side in `ts`.
pub open spec fn apart(ts: Seq<TokenView>) -> bool {
    forall|i: int| 0 <= i < ts.len() - 1 ==> !(is_bare(#[trigger] ts[i]) && is_bare(ts[i + 1]))
}

/// A run ends at `to` if it holds of every character from `from` up to `to`
/// and not of the one at `to`.
pub proof fn lemma_run_ends_at(src: Seq<char>, from: int, to: int, run: Run)
    requires
        0 <= from <= to <= src.len(),
        forall|i: int| from <= i < to ==> run.holds(#[trigger] src[i]),
        to < src.len() ==> !run.holds(src[to]),
    ensures
        run_end(src, from, run) == to,
    decreases to - from,
{
    if from < to {
        lemma_run_ends_at(src, from + 1, to, run);
    }
}

/// Whitespace before a token changes nothing: the lexer yields from `pos`
/// what it yields from `to`, where nothing but whitespace stands between.
pub proof fn lemma_skips_blank(src: Seq<char>, pos: int, to: int)
    requires
        0 <= pos <= to <= src.len(),
        forall|i: int| pos <= i < to ==> is_whitespace(#[trigger] src[i]),
    ensures
        next_token(src, pos) == next_token(src, to),
        tokens_from(src, pos) == tokens_from(src, to),
    decreases to - pos,
{
    if pos < to {
        assert(Run::Blank.holds(src[pos]));
        lemma_skips_blank(src, pos + 1, to);
    }
}

/// The spelling of a token is not empty, and it starts with a character at
/// which the spelling of any token before it ends, unless it is a bare one.
pub proof fn lemma_spelling_starts(text: Seq<char>, token: TokenView, before: TokenView)
    requires
        spells(text, token),
    ensures
        text.len() > 0,
        !is_whitespace(text[0]),
        !is_bare(token) ==> stops_at(before, text[0]),
{
    match token {
        TokenView::Str(s) => {
            assert(text[0] == '"');
        },
        TokenView::Num(NumberView::Decimal(written)) => {
            let point = choose|point: int| has_point_at(text, point);
            assert(text.subrange(0, point)[0] == text[0]);
        },
        TokenView::False => {
            assert(text[0] == 'f');
        },
        TokenView::True => {
            assert(text[0] == 't');
        },
        TokenView::Null => {
            assert(text[0] == 'n');
        },
        TokenView::LBrace => {
            assert(text[0] == '{');
        },
        TokenView::RBrace => {
            assert(text[0] == '}');
        },
        TokenView::LBracket => {
            assert(text[0] == '[');
        },
        TokenView::RBracket => {
            assert(text[0] == ']');
        },
        TokenView::Comma => {
            assert(text[0] == ',');
        },
        TokenView::Colon => {
            assert(text[0] == ':');
        },
        _ => {},
    }
}

/// The lexer reads a spelled token back: where `text` spells `token` and
/// stands at `pos`, and the spelling ends where the text goes on, the next
/// token at `pos` is `token`, and the lexer stops behind its spelling.
pub proof fn lemma_reads_token(src: Seq<char>, pos: int, text: Seq<char>, token: TokenView)
    requires
        spells(text, token),
        0 <= pos,
        pos + text.len() <= src.len(),
        src.subrange(pos, pos + text.len()) == text,
        pos + text.len() < src.len() ==> stops_at(token, src[pos + text.len()]),
    ensures
        next_token(src, pos) == (token, pos + text.len()),
        !token.is_last(),
{
    let end = pos + text.len();
    assert forall|i: int| 0 <= i < text.len() implies text[i] == src[pos + i] by {
        assert(src.subrange(pos, end)[i] == src[pos + i]);
    }
    lemma_spelling_starts(text, token, token);
    assert(src[pos] == text[0]);
    match token {
        TokenView::Str(s) => {
            assert(text[0] == '"');
            assert forall|i: int| pos + 1 <= i < end - 1 implies Run::Quoted.holds(
                #[trigger] src[i],
            ) by {
                assert(src[i] == text[i - pos]);
                assert(text[i - pos] == s[i - pos - 1]);
                assert(s.contains(s[i - pos - 1]));
            }
            assert(src[end - 1] == text[text.len() - 1]);
            lemma_run_ends_at(src, pos + 1, end - 1, Run::Quoted);
            assert(src.subrange(pos + 1, end - 1) =~= s) by {
                assert(text.len() == s.len() + 2);
                assert forall|i: int| 0 <= i < s.len() implies src[pos + 1 + i] == s[i] by {
                    assert(src[pos + 1 + i] == text[i + 1]);
                }
            }
        },
        TokenView::Num(NumberView::Integer(n)) => {
            assert forall|i: int| pos <= i < end implies Run::Digits.holds(#[trigger] src[i]) by {
                assert(src[i] == text[i - pos]);
            }
            lemma_run_ends_at(src, pos, end, Run::Digits);
        },
        TokenView::Num(NumberView::Decimal(written)) => {
            let point = choose|point: int| has_point_at(text, point);
            let whole = text.subrange(0, point);
            let part = text.subrange(point + 1, text.len() as int);
            assert(text[0] == whole[0]);
            assert forall|i: int| pos <= i < pos + point implies Run::Digits.holds(
                #[trigger] src[i],
            ) by {
                assert(src[i] == text[i - pos]);
                assert(text[i - pos] == whole[i - pos]);
            }
            assert(src[pos + point] == text[point]);
            lemma_run_ends_at(src, pos, pos + point, Run::Digits);
            assert forall|i: int| pos + point + 1 <= i < end implies Run::Digits.holds(
                #[trigger] src[i],
            ) by {
                assert(src[i] == text[i - pos]);
                assert(text[i - pos] == part[i - pos - point - 1]);
            }
            lemma_run_ends_at(src, pos + point + 1, end, Run::Digits);
        },
        TokenView::False => {
            assert(text[0] == 'f' && text[1] == 'a' && text[2] == 'l' && text[3] == 's' && text[4]
                == 'e');
            assert forall|i: int| pos <= i < end implies Run::Word.holds(#[trigger] src[i]) by {
                assert(src[i] == text[i - pos]);
            }
            lemma_run_ends_at(src, pos, end, Run::Word);
        },
        TokenView::True => {
            assert(text[0] == 't' && text[1] == 'r' && text[2] == 'u' && text[3] == 'e');
            assert forall|i: int| pos <= i < end implies Run::Word.holds(#[trigger] src[i]) by {
                assert(src[i] == text[i - pos]);
            }
            lemma_run_ends_at(src, pos, end, Run::Word);
            assert(seq!['f', 'a', 'l', 's', 'e'].len() == 5);
        },
        TokenView::Null => {
            assert(text[0] == 'n' && text[1] == 'u' && text[2] == 'l' && text[3] == 'l');
            assert forall|i: int| pos <= i < end implies Run::Word.holds(#[trigger] src[i]) by {
                assert(src[i] == text[i - pos]);
            }
            lemma_run_ends_at(src, pos, end, Run::Word);
            assert(seq!['f', 'a', 'l', 's', 'e'].len() == 5);
            assert(seq!['t', 'r', 'u', 'e'][0] == 't');
        },
        _ => {},
    }
}

/// The lexer reads spelled tokens back: where `src` from `pos` on is made of
/// texts that spell `ts`, with whitespace or nothing between them, and each
/// ends where the text goes on, the tokens from `pos` on are `ts` and the
/// end of the input.
pub proof fn lemma_reads_tokens(
    src: Seq<char>,
    pos: int,
    gaps: Seq<Seq<char>>,
    texts: Seq<Seq<char>>,
    ts: Seq<TokenView>,
)
    requires
        spell(texts, ts),
        surround(gaps, texts),
        separated(gaps, texts, ts),
        0 <= pos <= src.len(),
        src.skip(pos) == joined(gaps, texts),
    ensures
        tokens_from(src, pos) == ts + seq![TokenView::Eof],
    decreases texts.len(),
{
    let gap = gaps[0];
    let start = pos + gap.len();
    let tail = src.skip(pos);
    assert(tail.len() >= gap.len()) by {
        if texts.len() > 0 {
            assert(tail == gap + texts[0] + joined(gaps.skip(1), texts.skip(1)));
        }
    }
    assert forall|i: int| pos <= i < start implies is_whitespace(#[trigger] src[i]) by {
        assert(tail[i - pos] == src[i]);
        assert(tail[i - pos] == gap[i - pos]);
    }
    lemma_skips_blank(src, pos, start);
    if texts.len() == 0 {
        assert(run_end(src, start, Run::Blank) == start);
        assert(ts + seq![TokenView::Eof] =~= seq![TokenView::Eof]);
    } else {
        let text = texts[0];
        let end = start + text.len();
        let behind = joined(gaps.skip(1), texts.skip(1));
        assert(tail.len() == gap.len() + text.len() + behind.len());
        assert(src.subrange(start, end) =~= text) by {
            assert forall|i: int| 0 <= i < text.len() implies src[start + i] == text[i] by {
                assert(tail[gap.len() + i] == src[start + i]);
            }
        }
        if end < src.len() {
            assert(tail[end - pos] == src[end]);
            assert(src[end] == behind[0]);
        }
        lemma_reads_token(src, start, text, ts[0]);
        assert(src.skip(end) =~= behind) by {
            assert forall|i: int| 0 <= i < behind.len() implies src[end + i] == behind[i] by {
                assert(tail[gap.len() + text.len() + i] == src[end + i]);
            }
        }
        assert(spell(texts.skip(1), ts.skip(1))) by {
            assert forall|i: int| 0 <= i < ts.skip(1).len() implies spells(
                #[trigger] texts.skip(1)[i],
                ts.skip(1)[i],
            ) by {
                assert(texts.skip(1)[i] == texts[i + 1]);
            }
        }
        assert(surround(gaps.skip(1), texts.skip(1))) by {
            assert forall|i: int| 0 <= i < gaps.skip(1).len() implies is_blank(
                #[trigger] gaps.skip(1)[i],
            ) by {
                assert(gaps.skip(1)[i] == gaps[i + 1]);
            }
        }
        lemma_reads_tokens(src, end, gaps.skip(1), texts.skip(1), ts.skip(1));
        assert(seq![ts[0]] + (ts.skip(1) + seq![TokenView::Eof]) =~= ts + seq![TokenView::Eof]);
    }
}

/// Where no two bare tokens stand side by side, each spelling ends where
/// the text goes on, whatever whitespace stands between the spellings.
pub proof fn lemma_apart_separated(
    gaps: Seq<Seq<char>>,
    texts: Seq<Seq<char>>,
    ts: Seq<TokenView>,
)
    requires
        spell(texts, ts),
        surround(gaps, texts),
        apart(ts),
    ensures
        separated(gaps, texts, ts),
    decreases texts.len(),
{
    if texts.len() > 0 {
        let behind = joined(gaps.skip(1), texts.skip(1));
        if behind.len() > 0 {
            let gap = gaps.skip(1)[0];
            assert(gap == gaps[1]);
            if gap.len() > 0 {
                assert(behind[0] == gap[0]);
                assert(is_whitespace(gap[0]));
            } else {
                assert(texts.len() > 1);
                let text = texts.skip(1)[0];
                assert(text == texts[1]);
                lemma_spelling_starts(text, ts[1], ts[0]);
                assert(behind[0] == text[0]);
                assert(!(is_bare(ts[0]) && is_bare(ts[0int + 1])));
            }
        }
        assert(spell(texts.skip(1), ts.skip(1))) by {
            assert forall|i: int| 0 <= i < ts.skip(1).len() implies spells(
                #[trigger] texts.skip(1)[i],
                ts.skip(1)[i],
            ) by {
                assert(texts.skip(1)[i] == texts[i + 1]);
            }
        }
        assert(surround(gaps.skip(1), texts.skip(1))) by {
            assert forall|i: int| 0 <= i < gaps.skip(1).len() implies is_blank(
                #[trigger] gaps.skip(1)[i],
            ) by {
                assert(gaps.skip(1)[i] == gaps[i + 1]);
            }
        }
        assert(apart(ts.skip(1))) by {
            assert forall|i: int| 0 <= i < ts.skip(1).len() - 1 implies !(is_bare(
                #[trigger] ts.skip(1)[i],
            ) && is_bare(ts.skip(1)[i + 1])) by {
                assert(ts.skip(1)[i] == ts[i + 1]);
                assert(ts.skip(1)[i + 1] == ts[i + 1 + 1]);
            }
        }
        lemma_apart_separated(gaps.skip(1), texts.skip(1), ts.skip(1));
    }
}

/// Tokens in which no two bare ones stand side by side stay so when they
/// are put behind others of the kind, unless a bare one meets a bare one.
pub proof fn lemma_apart_joined(a: Seq<TokenView>, b: Seq<TokenView>)
    requires
        apart(a),
        apart(b),
        a.len() > 0 && b.len() > 0 ==> !(is_bare(a.last()) && is_bare(b[0])),
    ensures
        apart(a + b),
{
    let ts = a + b;
    assert forall|i: int| 0 <= i < ts.len() - 1 implies !(is_bare(#[trigger] ts[i]) && is_bare(
        ts[i + 1],
    )) by {
        if i + 1 < a.len() {
            assert(ts[i] == a[i] && ts[i + 1] == a[i + 1]);
        } else if i < a.len() {
            assert(ts[i] == a.last() && ts[i + 1] == b[0]);
        } else {
            assert(ts[i] == b[i - a.len()] && ts[i + 1] == b[i - a.len() + 1]);
        }
    }
}

/// In the notation of a document no two bare tokens stand side by side.
pub proof fn lemma_doc_apart(doc: Doc)
    ensures
        apart(doc_tokens(doc)),
        doc_tokens(doc).len() > 0,
    decreases doc, 0nat,
{
    match doc {
        Doc::List(items) => {
            lemma_list_apart(items);
            let open = seq![TokenView::LBracket];
            lemma_apart_joined(open, list_tokens(items));
            lemma_apart_joined(open + list_tokens(items), seq![TokenView::RBracket]);
        },
        Doc::Object(entries) => {
            lemma_object_apart(entries);
            let open = seq![TokenView::LBrace];
            lemma_apart_joined(open, object_tokens(entries));
            lemma_apart_joined(open + object_tokens(entries), seq![TokenView::RBrace]);
        },
        _ => {},
    }
}

/// In the notation of a list's items no two bare tokens stand side by side.
pub proof fn lemma_list_apart(items: Seq<Doc>)
    ensures
        apart(list_tokens(items)),
    decreases items, 1nat,
{
    if items.len() > 0 {
        lemma_doc_apart(items[0]);
        lemma_more_items_apart(items.skip(1));
        lemma_apart_joined(doc_tokens(items[0]), more_items_tokens(items.skip(1)));
    }
}

/// In the notation of the items behind the first no two bare tokens stand
/// side by side, and it starts with a `,`.
pub proof fn lemma_more_items_apart(items: Seq<Doc>)
    ensures
        apart(more_items_tokens(items)),
        items.len() > 0 ==> more_items_tokens(items).len() > 0 && more_items_tokens(items)[0]
            == TokenView::Comma,
    decreases items, 0nat,
{
    if items.len() > 0 {
        lemma_doc_apart(items[0]);
        lemma_more_items_apart(items.skip(1));
        let comma = seq![TokenView::Comma];
        lemma_apart_joined(comma, doc_tokens(items[0]));
        lemma_apart_joined(comma + doc_tokens(items[0]), more_items_tokens(items.skip(1)));
    }
}

/// In the notation of an object's entries no two bare tokens stand side by
/// side.
pub proof fn lemma_object_apart(entries: Seq<(Seq<char>, Doc)>)
    ensures
        apart(object_tokens(entries)),
    decreases entries, 1nat,
{
    if entries.len() > 0 {
        lemma_entry_apart(entries[0]);
        lemma_more_entries_apart(entries.skip(1));
        lemma_apart_joined(entry_tokens(entries[0]), more_entries_tokens(entries.skip(1)));
    }
}

/// In the notation of the entries behind the first no two bare tokens stand
/// side by side, and it starts with a `,`.
pub proof fn lemma_more_entries_apart(entries: Seq<(Seq<char>, Doc)>)
    ensures
        apart(more_entries_tokens(entries)),
        entries.len() > 0 ==> more_entries_tokens(entries).len() > 0 && more_entries_tokens(
            entries,
        )[0] == TokenView::Comma,
    decreases entries, 0nat,
{
    if entries.len() > 0 {
        lemma_entry_apart(entries[0]);
        lemma_more_entries_apart(entries.skip(1));
        let comma = seq![TokenView::Comma];
        lemma_apart_joined(comma, entry_tokens(entries[0]));
        lemma_apart_joined(
            comma + entry_tokens(entries[0]),
            more_entries_tokens(entries.skip(1)),
        );
    }
}

/// In the notation of an entry no two bare tokens stand side by side.
pub proof fn lemma_entry_apart(entry: (Seq<char>, Doc))
    ensures
        apart(entry_tokens(entry)),
        entry_tokens(entry).len() > 0,
    decreases entry.1, 1nat,
{
    lemma_doc_apart(entry.1);
    lemma_apart_joined(seq![TokenView::Str(entry.0), TokenView::Colon], doc_tokens(entry.1));
}

/// Parsing reads documents back from a text that writes them down. Whatever
/// the nesting: where one or more documents are written in plain notation,
/// each token spelled out, with whitespace or nothing between the tokens,
/// and each document has room for its parts, parsing the text yields the
/// documents in order.
pub proof fn lemma_reads_text(
    docs: Seq<Doc>,
    gaps: Seq<Seq<char>>,
    texts: Seq<Seq<char>>,
    room: nat,
)
    requires
        docs.len() > 0,
        all_fit(docs, room),
        spell(texts, list_tokens(docs)),
        surround(gaps, texts),
    ensures
        tokens(joined(gaps, texts)) == list_tokens(docs) + seq![TokenView::Eof],
        parse_documents(tokens(joined(gaps, texts)), room, Seq::empty()) == Ok::<
            Seq<Doc>,
            ErrorView,
        >(docs),
{
    let src = joined(gaps, texts);
    let ts = list_tokens(docs);
    assert(src.skip(0) =~= src);
    lemma_list_apart(docs);
    lemma_apart_separated(gaps, texts, ts);
    lemma_reads_tokens(src, 0, gaps, texts, ts);
    lemma_reads_documents(docs, room, Seq::empty());
    assert(Seq::<Doc>::empty() + docs =~= docs);
}

} // verus!
