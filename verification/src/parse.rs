//! Parsing a word-list source: one word per line, where lines that are empty
//! or consist only of whitespace are discarded. Line endings are `\n` or
//! `\r\n`; interior whitespace within a line is kept, the line being one
//! literal word token.

use vstd::prelude::*;

verus! {

/// The characters with the Unicode `White_Space` property, the characters
/// that make a line blank.
pub open spec fn is_ws(c: char) -> bool {
    ||| c == ' '
    ||| c == '\t'
    ||| c == '\n'
    ||| c == '\r'
    ||| c == '\u{000B}'
    ||| c == '\u{000C}'
    ||| c == '\u{0085}'
    ||| c == '\u{00A0}'
    ||| c == '\u{1680}'
    ||| ('\u{2000}' <= c && c <= '\u{200A}')
    ||| c == '\u{2028}'
    ||| c == '\u{2029}'
    ||| c == '\u{202F}'
    ||| c == '\u{205F}'
    ||| c == '\u{3000}'
}

fn is_ws_char(c: char) -> (r: bool)
    ensures
        r == is_ws(c),
{
    c == ' ' || c == '\t' || c == '\n' || c == '\r' || c == '\u{000B}' || c == '\u{000C}' || c
        == '\u{0085}' || c == '\u{00A0}' || c == '\u{1680}' || ('\u{2000}' <= c && c <= '\u{200A}')
        || c == '\u{2028}' || c == '\u{2029}' || c == '\u{202F}' || c == '\u{205F}' || c
        == '\u{3000}'
}

/// A line is blank when every character in it is whitespace; the empty line
/// is blank.
pub open spec fn line_blank(s: Seq<char>) -> bool {
    forall|i: int| 0 <= i < s.len() ==> is_ws(#[trigger] s[i])
}

/// A carriage return just before the line feed belongs to the line ending,
/// not to the word.
pub open spec fn strip_cr(s: Seq<char>) -> Seq<char> {
    if s.len() > 0 && s.last() == '\r' {
        s.drop_last()
    } else {
        s
    }
}

/// The words of a source, read left to right: `rest` is the input not yet
/// read and `cur` the characters of the line begun but not yet ended.
pub open spec fn parse_words_rec(rest: Seq<char>, cur: Seq<char>) -> Seq<Seq<char>>
    decreases rest.len(),
{
    if rest.len() == 0 {
        if line_blank(cur) {
            Seq::empty()
        } else {
            seq![cur]
        }
    } else if rest[0] == '\n' {
        let line = strip_cr(cur);
        if line_blank(line) {
            parse_words_rec(rest.drop_first(), Seq::empty())
        } else {
            seq![line] + parse_words_rec(rest.drop_first(), Seq::empty())
        }
    } else {
        parse_words_rec(rest.drop_first(), cur.push(rest[0]))
    }
}

/// The words of a source: its non-blank lines, in order.
pub open spec fn parse_words_spec(s: Seq<char>) -> Seq<Seq<char>> {
    parse_words_rec(s, Seq::empty())
}

/// The views of a vector of words.
pub open spec fn word_views(ws: Seq<String>) -> Seq<Seq<char>> {
    ws.map_values(|w: String| w@)
}

fn line_is_blank(line: &Vec<char>) -> (r: bool)
    ensures
        r == line_blank(line@),
{
    let mut i: usize = 0;
    while i < line.len()
        invariant
            i <= line@.len(),
            forall|k: int| 0 <= k < i ==> is_ws(#[trigger] line@[k]),
        decreases line@.len() - i,
    {
        if !is_ws_char(line[i]) {
            return false;
        }
        i = i + 1;
    }
    true
}

/// Splits a source into its words: one per line, blank lines discarded.
pub fn parse_words(dictionary_contents: &str) -> (r: Vec<String>)
    ensures
        word_views(r@) == parse_words_spec(dictionary_contents@),
{
    let chars = crate::sig::str_to_chars(dictionary_contents);
    let mut out: Vec<String> = Vec::new();
    let mut cur: Vec<char> = Vec::new();
    let mut i: usize = 0;
    proof {
        assert(word_views(out@) =~= Seq::<Seq<char>>::empty());
        assert(Seq::<Seq<char>>::empty() + parse_words_spec(dictionary_contents@)
            =~= parse_words_spec(dictionary_contents@));
        assert(chars@.skip(0) =~= chars@);
    }
    while i < chars.len()
        invariant
            i <= chars@.len(),
            chars@ == dictionary_contents@,
            parse_words_spec(dictionary_contents@) == word_views(out@) + parse_words_rec(
                chars@.skip(i as int),
                cur@,
            ),
        decreases chars@.len() - i,
    {
        let ghost rest = chars@.skip(i as int);
        proof {
            assert(rest[0] == chars@[i as int]);
            assert(rest.drop_first() =~= chars@.skip(i as int + 1));
        }
        let c = chars[i];
        if c == '\n' {
            let ghost cur0 = cur@;
            let mut line = cur;
            cur = Vec::new();
            if line.len() > 0 && line[line.len() - 1] == '\r' {
                let _ = line.pop();
                proof {
                    assert(line@ =~= cur0.drop_last());
                }
            }
            proof {
                assert(line@ == strip_cr(cur0));
            }
            if !line_is_blank(&line) {
                let ghost out_before = out@;
                let word = crate::sig::chars_to_string(line);
                out.push(word);
                proof {
                    assert(word_views(out@) =~= word_views(out_before).push(word@));
                    assert(word_views(out_before) + (seq![word@] + parse_words_rec(
                        chars@.skip(i as int + 1),
                        Seq::empty(),
                    )) =~= word_views(out@) + parse_words_rec(
                        chars@.skip(i as int + 1),
                        Seq::empty(),
                    ));
                }
            }
        } else {
            cur.push(c);
        }
        i = i + 1;
    }
    proof {
        assert(chars@.skip(chars@.len() as int) =~= Seq::<char>::empty());
    }
    if !line_is_blank(&cur) {
        let ghost out_before = out@;
        let word = crate::sig::chars_to_string(cur);
        out.push(word);
        proof {
            assert(word_views(out@) =~= word_views(out_before).push(word@));
            assert(word_views(out_before).push(word@) =~= word_views(out_before) + seq![word@]);
        }
    } else {
        proof {
            assert(word_views(out@) + Seq::<Seq<char>>::empty() =~= word_views(out@));
        }
    }
    out
}

} // verus!
