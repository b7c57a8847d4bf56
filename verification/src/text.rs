//! Text preparation: lowercasing, stripping special characters, splitting
//! sentences into words, and filtering words through word lists.

use vstd::prelude::*;

use crate::strutil::push_char;
use crate::strutil::str_copy;

verus! {

/// What `str::to_lowercase` returns; the result depends on the characters of
/// the input alone.
pub uninterp spec fn lower_of(s: Seq<char>) -> Seq<char>;

/// Relies on `str::to_lowercase`: the lowercase form of the input, a function
/// of the input characters alone; an empty input stays empty.
#[verifier::external_body]
fn lowercase(s: &str) -> (r: String)
    ensures
        r@ == lower_of(s@),
        s@.len() == 0 ==> r@.len() == 0,
{
    s.to_lowercase()
}

/// Characters that training text treats as noise; each is replaced by a
/// space before words are extracted.
pub open spec fn is_special(c: char) -> bool {
    c == '!' || c == '@' || c == '#' || c == '$' || c == '%' || c == '^' || c == '&' || c == '*'
        || c == '(' || c == ')' || c == '_' || c == '+' || c == '-' || c == '=' || c == '[' || c
        == ']' || c == '{' || c == '}' || c == '\\' || c == '|' || c == ';' || c == '\'' || c == ':'
        || c == '"' || c == ',' || c == '.' || c == '/' || c == '<' || c == '>' || c == '?' || c
        == '0' || c == '1' || c == '2' || c == '3' || c == '4' || c == '5' || c == '6' || c == '7'
        || c == '8' || c == '9' || c == '\n' || c == '\r'
}

pub open spec fn strip_map(s: Seq<char>) -> Seq<char> {
    s.map_values(|c: char| if is_special(c) { ' ' } else { c })
}

fn is_special_char(c: char) -> (r: bool)
    ensures
        r == is_special(c),
{
    c == '!' || c == '@' || c == '#' || c == '$' || c == '%' || c == '^' || c == '&' || c == '*'
        || c == '(' || c == ')' || c == '_' || c == '+' || c == '-' || c == '=' || c == '[' || c
        == ']' || c == '{' || c == '}' || c == '\\' || c == '|' || c == ';' || c == '\'' || c == ':'
        || c == '"' || c == ',' || c == '.' || c == '/' || c == '<' || c == '>' || c == '?' || c
        == '0' || c == '1' || c == '2' || c == '3' || c == '4' || c == '5' || c == '6' || c == '7'
        || c == '8' || c == '9' || c == '\n' || c == '\r'
}

/// Lowercases the input and replaces every special character by a space.
pub fn strip_special_characters(input: &String) -> (r: String)
    ensures
        r@ == strip_map(lower_of(input@)),
{
    let low = lowercase(input.as_str());
    let n = low.as_str().unicode_len();
    let mut out = String::new();
    let mut i: usize = 0;
    while i < n
        invariant
            0 <= i <= n,
            n == low@.len(),
            low@ == lower_of(input@),
            out@ == strip_map(low@.take(i as int)),
        decreases n - i,
    {
        let c = low.as_str().get_char(i);
        if is_special_char(c) {
            push_char(&mut out, ' ');
        } else {
            push_char(&mut out, c);
        }
        proof {
            assert(out@ =~= strip_map(low@.take(i + 1)));
        }
        i += 1;
    }
    proof {
        assert(low@.take(n as int) =~= low@);
    }
    out
}

/// Index of the first space in `s`, or `s.len()` if there is none.
pub open spec fn space_idx(s: Seq<char>) -> int
    decreases s.len(),
{
    if s.len() == 0 {
        0
    } else if s[0] == ' ' {
        0
    } else {
        1 + space_idx(s.drop_first())
    }
}

pub proof fn lemma_space_idx(s: Seq<char>)
    ensures
        0 <= space_idx(s) <= s.len(),
        space_idx(s) < s.len() ==> s[space_idx(s)] == ' ',
        forall|j: int| 0 <= j < space_idx(s) ==> s[j] != ' ',
    decreases s.len(),
{
    if s.len() > 0 && s[0] != ' ' {
        lemma_space_idx(s.drop_first());
        assert(forall|j: int| 1 <= j < space_idx(s) ==> s[j] == s.drop_first()[j - 1]);
    }
}

/// The fields of `s` split at single spaces; empty fields are kept.
pub open spec fn split_raw(s: Seq<char>) -> Seq<Seq<char>>
    decreases s.len() via split_raw_dec
{
    let j = space_idx(s);
    if j == s.len() {
        seq![s]
    } else {
        seq![s.take(j)] + split_raw(s.skip(j + 1))
    }
}

#[via_fn]
proof fn split_raw_dec(s: Seq<char>) {
    lemma_space_idx(s);
}

/// The nonempty words of `s`.
pub open spec fn words_of(s: Seq<char>) -> Seq<Seq<char>> {
    split_raw(s).filter(|w: Seq<char>| w.len() > 0)
}

/// Splits a string at single spaces, keeping empty fields.
pub fn split_fields(s: &str) -> (r: Vec<String>)
    ensures
        r@.map_values(|w: String| w@) == split_raw(s@),
{
    let n = s.unicode_len();
    let mut out: Vec<String> = Vec::new();
    let mut i: usize = 0;
    proof {
        assert(s@.skip(0) =~= s@);
        assert(out@.map_values(|w: String| w@) =~= Seq::<Seq<char>>::empty());
    }
    loop
        invariant_except_break
            split_raw(s@) == out@.map_values(|w: String| w@) + split_raw(s@.skip(i as int)),
        invariant
            0 <= i <= n,
            n == s@.len(),
        ensures
            out@.map_values(|w: String| w@) == split_raw(s@),
        decreases n - i,
    {
        // find the next space at or after i
        let mut j: usize = i;
        while j < n && s.get_char(j) != ' '
            invariant
                i <= j <= n,
                n == s@.len(),
                forall|k: int| i <= k < j ==> s@[k] != ' ',
            decreases n - j,
        {
            j += 1;
        }
        proof {
            let rest = s@.skip(i as int);
            lemma_space_idx(rest);
            assert(forall|k: int| 0 <= k < rest.len() ==> rest[k] == s@[k + i]);
            if j < n {
                assert(space_idx(rest) == j - i) by {
                    if space_idx(rest) < j - i {
                        assert(rest[space_idx(rest)] == ' ');
                        assert(s@[space_idx(rest) + i] != ' ');
                    }
                    if space_idx(rest) > j - i {
                        assert(rest[j - i] != ' ');
                        assert(s@[j as int] == ' ');
                    }
                }
            } else {
                assert(space_idx(rest) == rest.len()) by {
                    if space_idx(rest) < rest.len() {
                        assert(rest[space_idx(rest)] == ' ');
                        assert(s@[space_idx(rest) + i] != ' ');
                    }
                }
            }
        }
        let field = s.substring_char(i, j);
        out.push(str_copy(field));
        if j == n {
            proof {
                let rest = s@.skip(i as int);
                assert(rest.take(rest.len() as int) =~= rest);
                assert(field@ =~= rest);
                assert(split_raw(rest) =~= seq![rest]);
                assert(out@.map_values(|w: String| w@) =~= split_raw(s@));
            }
            break;
        }
        proof {
            let rest = s@.skip(i as int);
            assert(field@ =~= rest.take(j - i));
            assert(rest.skip(j - i + 1) =~= s@.skip(j + 1));
            assert(split_raw(rest) == seq![rest.take(j - i)] + split_raw(s@.skip(j + 1)));
            assert(split_raw(s@) =~= out@.map_values(|w: String| w@) + split_raw(
                s@.skip(j + 1),
            ));
        }
        i = j + 1;
    }
    out
}

/// A set of words, used as a stop-word list or a whitelist.
pub struct ValidationMap {
    pub entries: Vec<(String, bool)>,
}

impl ValidationMap {
    /// Whether some entry holds the word `w`.
    pub open spec fn has_word(&self, w: Seq<char>) -> bool {
        exists|i: int| 0 <= i < self.entries@.len() && self.entries@[i].0@ == w
    }

    pub fn new() -> (r: ValidationMap)
        ensures
            r.entries@.len() == 0,
            forall|w: Seq<char>| !r.has_word(w),
    {
        ValidationMap { entries: Vec::new() }
    }

    pub fn insert(&mut self, w: String)
        ensures
            final(self).has_word(w@),
            forall|v: Seq<char>| final(self).has_word(v) <==> (old(self).has_word(v) || v == w@),
    {
        self.entries.push((w, true));
        proof {
            assert(self.entries@.last().0@ == w@);
            assert(forall|v: Seq<char>|
                old(self).has_word(v) ==> final(self).has_word(v)) by {
                assert(forall|i: int|
                    0 <= i < old(self).entries@.len() ==> final(self).entries@[i]
                        == old(self).entries@[i]);
            }
        }
    }

    pub fn contains(&self, w: &str) -> (r: bool)
        ensures
            r == self.has_word(w@),
    {
        let n = self.entries.len();
        let mut i: usize = 0;
        while i < n
            invariant
                0 <= i <= n,
                n == self.entries@.len(),
                forall|j: int| 0 <= j < i ==> self.entries@[j].0@ != w@,
            decreases n - i,
        {
            if crate::strutil::str_eq(self.entries[i].0.as_str(), w) {
                return true;
            }
            i += 1;
        }
        false
    }
}

/// Builds a word set from file contents: one word per line, each lowercased
/// and stripped of special characters.
pub fn get_validation_map(contents: &String) -> (r: ValidationMap)
    ensures
        forall|w: Seq<char>|
            r.has_word(w) <==> exists|i: int|
                0 <= i < line_words(contents@).len() && #[trigger] line_words(contents@)[i] == w,
{
    let lines = split_lines(contents.as_str());
    let mut r = ValidationMap::new();
    let n = lines.len();
    let mut i: usize = 0;
    while i < n
        invariant
            0 <= i <= n,
            n == lines@.len(),
            lines@.map_values(|l: String| l@) == split_at_newlines(contents@),
            forall|w: Seq<char>|
                r.has_word(w) <==> exists|j: int|
                    0 <= j < i && #[trigger] line_words(contents@)[j] == w,
        decreases n - i,
    {
        let cleaned = strip_special_characters(&lines[i]);
        proof {
            assert(line_words(contents@)[i as int] == strip_map(lower_of(lines@[i as int]@)));
        }
        r.insert(cleaned);
        i += 1;
    }
    r
}

/// The words a word-list file holds, line by line.
pub open spec fn line_words(contents: Seq<char>) -> Seq<Seq<char>> {
    split_at_newlines(contents).map_values(|l: Seq<char>| strip_map(lower_of(l)))
}

/// Index of the first newline in `s`, or `s.len()` if there is none.
pub open spec fn newline_idx(s: Seq<char>) -> int
    decreases s.len(),
{
    if s.len() == 0 {
        0
    } else if s[0] == '\n' {
        0
    } else {
        1 + newline_idx(s.drop_first())
    }
}

pub proof fn lemma_newline_idx(s: Seq<char>)
    ensures
        0 <= newline_idx(s) <= s.len(),
        newline_idx(s) < s.len() ==> s[newline_idx(s)] == '\n',
        forall|j: int| 0 <= j < newline_idx(s) ==> s[j] != '\n',
    decreases s.len(),
{
    if s.len() > 0 && s[0] != '\n' {
        lemma_newline_idx(s.drop_first());
        assert(forall|j: int| 1 <= j < newline_idx(s) ==> s[j] == s.drop_first()[j - 1]);
    }
}

/// The lines of `s` split at newlines; empty lines are kept.
pub open spec fn split_at_newlines(s: Seq<char>) -> Seq<Seq<char>>
    decreases s.len() via split_at_newlines_dec
{
    let j = newline_idx(s);
    if j == s.len() {
        seq![s]
    } else {
        seq![s.take(j)] + split_at_newlines(s.skip(j + 1))
    }
}

#[via_fn]
proof fn split_at_newlines_dec(s: Seq<char>) {
    lemma_newline_idx(s);
}

/// Splits a string at newlines, keeping empty lines.
pub fn split_lines(s: &str) -> (r: Vec<String>)
    ensures
        r@.map_values(|w: String| w@) == split_at_newlines(s@),
{
    let n = s.unicode_len();
    let mut out: Vec<String> = Vec::new();
    let mut i: usize = 0;
    proof {
        assert(s@.skip(0) =~= s@);
        assert(out@.map_values(|w: String| w@) =~= Seq::<Seq<char>>::empty());
    }
    loop
        invariant_except_break
            split_at_newlines(s@) == out@.map_values(|w: String| w@) + split_at_newlines(
                s@.skip(i as int),
            ),
        invariant
            0 <= i <= n,
            n == s@.len(),
        ensures
            out@.map_values(|w: String| w@) == split_at_newlines(s@),
        decreases n - i,
    {
        let mut j: usize = i;
        while j < n && s.get_char(j) != '\n'
            invariant
                i <= j <= n,
                n == s@.len(),
                forall|k: int| i <= k < j ==> s@[k] != '\n',
            decreases n - j,
        {
            j += 1;
        }
        proof {
            let rest = s@.skip(i as int);
            lemma_newline_idx(rest);
            assert(forall|k: int| 0 <= k < rest.len() ==> rest[k] == s@[k + i]);
            if j < n {
                assert(newline_idx(rest) == j - i) by {
                    if newline_idx(rest) < j - i {
                        assert(rest[newline_idx(rest)] == '\n');
                        assert(s@[newline_idx(rest) + i] != '\n');
                    }
                    if newline_idx(rest) > j - i {
                        assert(rest[j - i] != '\n');
                        assert(s@[j as int] == '\n');
                    }
                }
            } else {
                assert(newline_idx(rest) == rest.len()) by {
                    if newline_idx(rest) < rest.len() {
                        assert(rest[newline_idx(rest)] == '\n');
                        assert(s@[newline_idx(rest) + i] != '\n');
                    }
                }
            }
        }
        let line = s.substring_char(i, j);
        out.push(str_copy(line));
        if j == n {
            proof {
                let rest = s@.skip(i as int);
                assert(rest.take(rest.len() as int) =~= rest);
                assert(line@ =~= rest);
                assert(split_at_newlines(rest) =~= seq![rest]);
                assert(out@.map_values(|w: String| w@) =~= split_at_newlines(s@));
            }
            break;
        }
        proof {
            let rest = s@.skip(i as int);
            assert(line@ =~= rest.take(j - i));
            assert(rest.skip(j - i + 1) =~= s@.skip(j + 1));
            assert(split_at_newlines(rest) == seq![rest.take(j - i)] + split_at_newlines(
                s@.skip(j + 1),
            ));
            assert(split_at_newlines(s@) =~= out@.map_values(|w: String| w@)
                + split_at_newlines(s@.skip(j + 1)));
        }
        i = j + 1;
    }
    out
}

/// Builds a word set from optional file contents; absent contents give the
/// empty set.
pub fn get_optional_validation_map(contents: Option<&String>) -> (r: ValidationMap)
    ensures
        match contents {
            Some(c) => forall|w: Seq<char>|
                r.has_word(w) <==> exists|i: int|
                    0 <= i < line_words(c@).len() && #[trigger] line_words(c@)[i] == w,
            None => forall|w: Seq<char>| !r.has_word(w),
        },
{
    match contents {
        Some(c) => get_validation_map(c),
        None => ValidationMap::new(),
    }
}

/// One cleaned token: kept tokens appear as a space followed by the token.
pub open spec fn keep_token(
    t: Seq<char>,
    bl: Option<&ValidationMap>,
    wl: Option<&ValidationMap>,
) -> bool {
    &&& match bl {
        Some(m) => !m.has_word(t),
        None => true,
    }
    &&& match wl {
        Some(m) => m.has_word(t),
        None => true,
    }
}

pub open spec fn clean_tokens(
    ts: Seq<Seq<char>>,
    bl: Option<&ValidationMap>,
    wl: Option<&ValidationMap>,
) -> Seq<char>
    decreases ts.len(),
{
    if ts.len() == 0 {
        Seq::empty()
    } else {
        let rest = clean_tokens(ts.drop_last(), bl, wl);
        if keep_token(ts.last(), bl, wl) {
            rest + seq![' '] + ts.last()
        } else {
            rest
        }
    }
}

/// Lowercases and strips the input, then keeps each space-separated field
/// that passes the stop-word list (absent from `bl_words`) and the whitelist
/// (present in `wl_words`); every kept field is appended after a space.
pub fn clean_words(
    input: &String,
    bl_words: Option<&ValidationMap>,
    wl_words: Option<&ValidationMap>,
) -> (r: String)
    ensures
        r@ == clean_tokens(split_raw(strip_map(lower_of(input@))), bl_words, wl_words),
{
    let stripped = strip_special_characters(input);
    let fields = split_fields(stripped.as_str());
    let ghost ts = split_raw(strip_map(lower_of(input@)));
    let mut out = String::new();
    let n = fields.len();
    let mut i: usize = 0;
    while i < n
        invariant
            0 <= i <= n,
            n == fields@.len(),
            fields@.map_values(|w: String| w@) == ts,
            out@ == clean_tokens(ts.take(i as int), bl_words, wl_words),
        decreases n - i,
    {
        let wd = &fields[i];
        let keep = match bl_words {
            Some(m) => !m.contains(wd.as_str()),
            None => true,
        };
        let keep2 = keep && match wl_words {
            Some(m) => m.contains(wd.as_str()),
            None => true,
        };
        proof {
            assert(ts.take(i + 1).drop_last() =~= ts.take(i as int));
            assert(ts.take(i + 1).last() == ts[i as int]);
            assert(ts[i as int] == fields@[i as int]@);
        }
        if keep2 {
            push_char(&mut out, ' ');
            out.append(wd.as_str());
            proof {
                assert(out@ =~= clean_tokens(ts.take(i + 1), bl_words, wl_words));
            }
        } else {
            proof {
                assert(out@ =~= clean_tokens(ts.take(i + 1), bl_words, wl_words));
            }
        }
        i += 1;
    }
    proof {
        assert(ts.take(n as int) =~= ts);
    }
    out
}

/// Consecutive-word pairs of a token stream: each nonempty running word is
/// paired with the token that follows it, and every token (empty or not)
/// becomes the new running word.
pub open spec fn pairs_fold(ts: Seq<Seq<char>>, last: Seq<char>) -> Seq<(Seq<char>, Seq<char>)>
    decreases ts.len(),
{
    if ts.len() == 0 {
        Seq::empty()
    } else if last.len() == 0 {
        pairs_fold(ts.drop_first(), ts[0])
    } else {
        seq![(last, ts[0])] + pairs_fold(ts.drop_first(), ts[0])
    }
}

/// The consecutive-word pairs of a cleaned text.
pub open spec fn word_pairs_of(s: Seq<char>) -> Seq<(Seq<char>, Seq<char>)> {
    pairs_fold(split_raw(s), Seq::empty())
}

/// Splits a cleaned text at spaces and pairs each word with its successor.
pub fn get_word_pairs(cleaned_text: &String) -> (r: Vec<(String, String)>)
    ensures
        r@.map_values(|p: (String, String)| (p.0@, p.1@)) == word_pairs_of(cleaned_text@),
{
    let fields = split_fields(cleaned_text.as_str());
    let ghost ts = split_raw(cleaned_text@);
    let mut out: Vec<(String, String)> = Vec::new();
    let mut last_word = String::new();
    let n = fields.len();
    let mut i: usize = 0;
    proof {
        assert(ts.skip(0) =~= ts);
        assert(out@.map_values(|p: (String, String)| (p.0@, p.1@))
            =~= Seq::<(Seq<char>, Seq<char>)>::empty());
    }
    while i < n
        invariant
            0 <= i <= n,
            n == fields@.len(),
            fields@.map_values(|w: String| w@) == ts,
            out@.map_values(|p: (String, String)| (p.0@, p.1@)) + pairs_fold(
                ts.skip(i as int),
                last_word@,
            ) == word_pairs_of(cleaned_text@),
        decreases n - i,
    {
        let word = &fields[i];
        proof {
            assert(ts.skip(i as int)[0] == ts[i as int]);
            assert(ts[i as int] == fields@[i as int]@);
            assert(ts.skip(i as int).drop_first() =~= ts.skip(i + 1));
        }
        if last_word.as_str().unicode_len() == 0 {
            last_word = str_copy(word.as_str());
        } else {
            let ghost prev = out@.map_values(|p: (String, String)| (p.0@, p.1@));
            out.push((str_copy(last_word.as_str()), str_copy(word.as_str())));
            last_word = str_copy(word.as_str());
            proof {
                let e = (out@.last().0@, out@.last().1@);
                assert(out@.map_values(|p: (String, String)| (p.0@, p.1@)) =~= prev.push(e));
                assert(prev.push(e) + pairs_fold(ts.skip(i + 1), last_word@) =~= prev + (seq![e]
                    + pairs_fold(ts.skip(i + 1), last_word@)));
            }
        }
        i += 1;
    }
    proof {
        assert(ts.skip(n as int) =~= Seq::<Seq<char>>::empty());
        assert(out@.map_values(|p: (String, String)| (p.0@, p.1@)) + Seq::<(
            Seq<char>,
            Seq<char>,
        )>::empty() =~= out@.map_values(|p: (String, String)| (p.0@, p.1@)));
    }
    out
}

} // verus!
