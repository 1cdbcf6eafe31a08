use vstd::prelude::*;
use vstd::hash_map::StringHashMap;

verus! {

/// Whether `c` has the Unicode `White_Space` property (what `char::is_whitespace`
/// and `str::trim` go by).
pub open spec fn is_white_space(c: char) -> bool {
    let v = c as u32;
    (0x09 <= v <= 0x0d) || v == 0x20 || v == 0x85 || v == 0xa0 || v == 0x1680 || (0x2000 <= v
        <= 0x200a) || v == 0x2028 || v == 0x2029 || v == 0x202f || v == 0x205f || v == 0x3000
}

/// `s` without its leading white space.
pub open spec fn trim_start(s: Seq<char>) -> Seq<char>
    decreases s.len(),
{
    if s.len() > 0 && is_white_space(s[0]) {
        trim_start(s.drop_first())
    } else {
        s
    }
}

/// `s` without its trailing white space.
pub open spec fn trim_end(s: Seq<char>) -> Seq<char>
    decreases s.len(),
{
    if s.len() > 0 && is_white_space(s.last()) {
        trim_end(s.drop_last())
    } else {
        s
    }
}

/// `s` without leading and trailing white space.
pub open spec fn trimmed(s: Seq<char>) -> Seq<char> {
    trim_end(trim_start(s))
}

/// The pieces of `s` between occurrences of `sep` (one piece more than there
/// are separators; the empty text is one empty piece).
pub open spec fn split_on(s: Seq<char>, sep: char) -> Seq<Seq<char>>
    decreases s.len(),
{
    if s.len() == 0 {
        seq![Seq::<char>::empty()]
    } else if s.last() == sep {
        split_on(s.drop_last(), sep).push(Seq::<char>::empty())
    } else {
        let p = split_on(s.drop_last(), sep);
        p.update(p.len() - 1, p.last().push(s.last()))
    }
}

proof fn lemma_split_on_nonempty(s: Seq<char>, sep: char)
    ensures
        split_on(s, sep).len() >= 1,
    decreases s.len(),
{
    if s.len() > 0 {
        lemma_split_on_nonempty(s.drop_last(), sep);
    }
}

/// Splits `text` at every `'\n'`.
///
/// Calls `str::split`, whose documentation says it yields the substrings
/// separated by the pattern, in order; the contract states that as `split_on`.
#[verifier::external_body]
fn split_lines<'a>(text: &'a str) -> (lines: Vec<&'a str>)
    ensures
        lines@.len() == split_on(text@, '\n').len(),
        forall|i: int| 0 <= i < lines@.len() ==> #[trigger] lines@[i]@ == split_on(text@, '\n')[i],
{
    text.split('\n').collect()
}

/// `text` with leading and trailing white space removed.
///
/// Calls `str::trim`, whose documentation says it removes leading and trailing
/// characters with the Unicode `White_Space` property; the contract states that
/// as `trimmed`.
#[verifier::external_body]
fn trim_white_space<'a>(text: &'a str) -> (t: &'a str)
    ensures
        t@ == trimmed(text@),
{
    text.trim()
}

/// Errors that can occur while loading or using the recognition dictionary.
#[derive(Debug)]
pub enum DictionaryError {
    /// The dictionary could not be read; `message` describes why.
    Io { message: String, path: String },
    /// The dictionary did not contain any entries.
    EmptyDictionary { path: String },
    /// The dictionary contained a duplicate token.
    DuplicateEntry { path: String, line_number: usize, token: String },
}

/// The token a line of a dictionary file stands for: the line, trimmed.
pub open spec fn line_token(lines: Seq<Seq<char>>, i: int) -> Seq<char> {
    trimmed(lines[i])
}

/// The line at `i` holds a token that an earlier line already holds.
pub open spec fn is_duplicate_line(lines: Seq<Seq<char>>, i: int) -> bool {
    line_token(lines, i).len() > 0 && exists|j: int|
        0 <= j < i && #[trigger] line_token(lines, j) == line_token(lines, i)
}

/// The tokens of the first `n` lines: every non-blank line, trimmed, in order.
pub open spec fn kept_tokens(lines: Seq<Seq<char>>, n: int) -> Seq<Seq<char>>
    decreases n,
{
    if n <= 0 {
        Seq::empty()
    } else if line_token(lines, n - 1).len() > 0 {
        kept_tokens(lines, n - 1).push(line_token(lines, n - 1))
    } else {
        kept_tokens(lines, n - 1)
    }
}

proof fn lemma_kept_contains(lines: Seq<Seq<char>>, n: int, t: Seq<char>)
    requires
        0 <= n <= lines.len(),
    ensures
        kept_tokens(lines, n).contains(t) <==> (t.len() > 0 && exists|j: int|
            0 <= j < n && #[trigger] line_token(lines, j) == t),
    decreases n,
{
    if n > 0 {
        lemma_kept_contains(lines, n - 1, t);
        let prev = kept_tokens(lines, n - 1);
        let cur = kept_tokens(lines, n);
        if line_token(lines, n - 1).len() > 0 {
            assert(cur == prev.push(line_token(lines, n - 1)));
            if cur.contains(t) {
                let k = choose|k: int| 0 <= k < cur.len() && cur[k] == t;
                if k < prev.len() {
                    assert(prev[k] == t);
                }
            }
            if prev.contains(t) {
                let k = choose|k: int| 0 <= k < prev.len() && prev[k] == t;
                assert(cur[k] == t);
            }
            if line_token(lines, n - 1) == t {
                assert(cur[prev.len() as int] == t);
            }
        }
    }
}

/// No two entries of `s` are equal.
pub open spec fn all_distinct(s: Seq<Seq<char>>) -> bool {
    forall|i: int, j: int| 0 <= i < s.len() && 0 <= j < s.len() && i != j ==> s[i] != s[j]
}

/// The position of `t` in `s`, if `t` occurs there.
pub open spec fn position_of(s: Seq<Seq<char>>, t: Seq<char>) -> Option<int> {
    if exists|i: int| 0 <= i < s.len() && s[i] == t {
        Some(choose|i: int| 0 <= i < s.len() && s[i] == t)
    } else {
        None
    }
}

/// Recognition dictionary wrapping the PaddleOCR vocabulary.
pub struct RecDictionary {
    tokens: Vec<String>,
    reverse: StringHashMap<usize>,
}

impl View for RecDictionary {
    type V = Seq<Seq<char>>;

    closed spec fn view(&self) -> Seq<Seq<char>> {
        self.tokens@.map_values(|t: String| t@)
    }
}

impl RecDictionary {
    /// The dictionary is well formed: its tokens are distinct and non-empty,
    /// and its lookup table maps each token to its position.
    pub closed spec fn wf(&self) -> bool {
        &&& all_distinct(self@)
        &&& forall|i: int| 0 <= i < self@.len() ==> #[trigger] self@[i].len() > 0
        &&& forall|t: Seq<char>|
            #[trigger] self.reverse@.contains_key(t) <==> self@.contains(t)
        &&& forall|i: int|
            0 <= i < self@.len() ==> self.reverse@[#[trigger] self@[i]] == i
    }

    /// Builds a dictionary from the text of a dictionary file named `path`.
    ///
    /// Each non-blank line, trimmed, is a token, in order. A token that an
    /// earlier line already holds is an error naming the (1-based) line; a text
    /// without tokens is an error too.
    pub fn parse_contents(contents: &str, path: &str) -> (res: Result<Self, DictionaryError>)
        ensures
            ({
                let lines = split_on(contents@, '\n');
                if exists|i: int| 0 <= i < lines.len() && is_duplicate_line(lines, i) {
                    let i = choose|i: int|
                        0 <= i < lines.len() && is_duplicate_line(lines, i) && forall|j: int|
                            0 <= j < i ==> !is_duplicate_line(lines, j);
                    res matches Err(DictionaryError::DuplicateEntry { path: p, line_number, token })
                        && p@ == path@ && line_number == i + 1 && token@ == line_token(lines, i)
                } else if kept_tokens(lines, lines.len() as int).len() == 0 {
                    res matches Err(DictionaryError::EmptyDictionary { path: p }) && p@ == path@
                } else {
                    res matches Ok(d) && d.wf() && d@ == kept_tokens(lines, lines.len() as int)
                }
            }),
    {
        let lines = split_lines(contents);
        let ghost lv = split_on(contents@, '\n');
        let mut tokens: Vec<String> = Vec::new();
        let mut reverse: StringHashMap<usize> = StringHashMap::new();
        let mut n: usize = 0;
        while n < lines.len()
            invariant
                lines@.len() == lv.len(),
                forall|i: int| 0 <= i < lines@.len() ==> #[trigger] lines@[i]@ == lv[i],
                lv == split_on(contents@, '\n'),
                0 <= n <= lines@.len(),
                forall|j: int| 0 <= j < n ==> !is_duplicate_line(lv, j),
                tokens@.map_values(|t: String| t@) == kept_tokens(lv, n as int),
                all_distinct(kept_tokens(lv, n as int)),
                forall|i: int| 0 <= i < tokens@.len() ==> #[trigger] tokens@[i]@.len() > 0,
                forall|t: Seq<char>| #[trigger]
                    reverse@.contains_key(t) <==> kept_tokens(lv, n as int).contains(t),
                forall|i: int|
                    0 <= i < tokens@.len() ==> reverse@[#[trigger] tokens@[i]@] == i,
            decreases lines@.len() - n,
        {
            let token = trim_white_space(lines[n]);
            assert(token@ == line_token(lv, n as int));
            if token.is_empty() {
                n += 1;
                continue;
            }
            proof {
                lemma_kept_contains(lv, n as int, token@);
            }
            if reverse.contains_key(token) {
                proof {
                    assert(is_duplicate_line(lv, n as int));
                    let i = choose|i: int|
                        0 <= i < lv.len() && is_duplicate_line(lv, i) && forall|j: int|
                            0 <= j < i ==> !is_duplicate_line(lv, j);
                    assert(i == n) by {
                        if i < n {
                            assert(!is_duplicate_line(lv, i));
                        }
                        if n < i {
                            assert(!is_duplicate_line(lv, n as int));
                        }
                    }
                }
                return Err(DictionaryError::DuplicateEntry {
                    path: path.to_owned(),
                    line_number: n + 1,
                    token: token.to_owned(),
                });
            }
            proof {
                assert(!is_duplicate_line(lv, n as int));
            }
            let ghost old_tokens = tokens@;
            let ghost old_reverse = reverse@;
            let ghost old_kept = kept_tokens(lv, n as int);
            let owned = token.to_owned();
            let position = tokens.len();
            reverse.insert(token.to_owned(), position);
            tokens.push(owned);
            n += 1;
            proof {
                assert(kept_tokens(lv, n as int) == old_kept.push(token@));
                assert(tokens@.map_values(|t: String| t@) =~= kept_tokens(lv, n as int));
                assert forall|t: Seq<char>|
                    #[trigger] reverse@.contains_key(t) <==> kept_tokens(lv, n as int).contains(t) by {
                    if t == token@ {
                        assert(kept_tokens(lv, n as int)[old_kept.len() as int] == t);
                    } else {
                        if kept_tokens(lv, n as int).contains(t) {
                            let k = choose|k: int| 0 <= k < kept_tokens(lv, n as int).len() && kept_tokens(lv, n as int)[k] == t;
                            assert(old_kept[k] == t);
                        }
                        if old_kept.contains(t) {
                            let k = choose|k: int| 0 <= k < old_kept.len() && old_kept[k] == t;
                            assert(kept_tokens(lv, n as int)[k] == t);
                        }
                    }
                }
                assert forall|i: int| 0 <= i < tokens@.len() implies reverse@[#[trigger] tokens@[i]@] == i by {
                    if i < old_tokens.len() {
                        assert(old_kept[i] == old_tokens[i]@);
                        assert(old_kept.contains(old_tokens[i]@));
                        assert(old_tokens[i]@ != token@);
                        assert(tokens@[i] == old_tokens[i]);
                    }
                }
            }
        }
        if tokens.len() == 0 {
            assert(tokens@.map_values(|t: String| t@).len() == 0);
            return Err(DictionaryError::EmptyDictionary { path: path.to_owned() });
        }
        Ok(RecDictionary { tokens, reverse })
    }

    /// Returns the number of entries in the dictionary.
    pub fn len(&self) -> (n: usize)
        ensures
            n == self@.len(),
    {
        self.tokens.len()
    }

    /// Returns true if the dictionary has no entries.
    pub fn is_empty(&self) -> (b: bool)
        ensures
            b == (self@.len() == 0),
    {
        self.tokens.len() == 0
    }

    /// The class index that stands for "no token" in recognition output: the
    /// one just past the last token.
    pub fn blank_id(&self) -> (b: usize)
        ensures
            b == self@.len(),
    {
        self.tokens.len()
    }

    /// Returns the token for the given index.
    pub fn token(&self, index: usize) -> (t: Option<&str>)
        ensures
            index < self@.len() ==> (t matches Some(s) && s@ == self@[index as int]),
            index >= self@.len() ==> t is None,
    {
        if index < self.tokens.len() {
            Some(self.tokens[index].as_str())
        } else {
            None
        }
    }

    /// Returns the index for a given token, if it exists.
    pub fn index_of(&self, token: &str) -> (r: Option<usize>)
        requires
            self.wf(),
        ensures
            r matches Some(i) ==> i < self@.len() && self@[i as int] == token@,
            r is None ==> !self@.contains(token@),
            match position_of(self@, token@) {
                Some(i) => r == Some(i as usize),
                None => r is None,
            },
    {
        match self.reverse.get(token) {
            Some(i) => {
                proof {
                    assert(self@.contains(token@));
                    let k = choose|k: int| 0 <= k < self@.len() && self@[k] == token@;
                    assert(self.reverse@[self@[k]] == k);
                    let p = choose|i: int| 0 <= i < self@.len() && self@[i] == token@;
                    assert(p == k);
                }
                Some(*i)
            },
            None => None,
        }
    }
}

/// In a well-formed dictionary, looking a token up gives back its position.
pub proof fn law_index_of_token_roundtrip(d: &RecDictionary, i: int)
    requires
        d.wf(),
        0 <= i < d@.len(),
    ensures
        position_of(d@, d@[i]) == Some(i),
{
    reveal(RecDictionary::wf);
    let p = choose|k: int| 0 <= k < d@.len() && d@[k] == d@[i];
    assert(p == i);
}


/// The tokens of the first `n` lines, none of which repeats an earlier
/// token, are distinct and non-empty.
proof fn lemma_kept_distinct(lines: Seq<Seq<char>>, n: int)
    requires
        0 <= n <= lines.len(),
        forall|i: int| 0 <= i < n ==> !is_duplicate_line(lines, i),
    ensures
        all_distinct(kept_tokens(lines, n)),
        forall|k: int| 0 <= k < kept_tokens(lines, n).len() ==> #[trigger] kept_tokens(lines, n)[k].len() > 0,
    decreases n,
{
    if n > 0 {
        lemma_kept_distinct(lines, n - 1);
        let prev = kept_tokens(lines, n - 1);
        let t = line_token(lines, n - 1);
        if t.len() > 0 {
            lemma_kept_contains(lines, n - 1, t);
            assert(!is_duplicate_line(lines, n - 1));
            assert(!prev.contains(t));
            let cur = kept_tokens(lines, n);
            assert(cur == prev.push(t));
            assert forall|i: int, j: int| 0 <= i < cur.len() && 0 <= j < cur.len() && i != j implies cur[i] != cur[j] by {
                if i == prev.len() {
                    assert(cur[j] == prev[j]);
                } else if j == prev.len() {
                    assert(cur[i] == prev[i]);
                }
            }
        }
    }
}

/// A dictionary file with no repeated token gives distinct, non-empty tokens:
/// the entries that parsing keeps never repeat and are never blank.
pub proof fn law_dictionary_tokens_are_distinct(contents: Seq<char>)
    requires
        forall|i: int|
            0 <= i < split_on(contents, '\n').len() ==> !is_duplicate_line(split_on(contents, '\n'), i),
    ensures
        all_distinct(kept_tokens(split_on(contents, '\n'), split_on(contents, '\n').len() as int)),
        forall|k: int|
            0 <= k < kept_tokens(split_on(contents, '\n'), split_on(contents, '\n').len() as int).len()
                ==> #[trigger] kept_tokens(split_on(contents, '\n'), split_on(contents, '\n').len() as int)[k].len()
                > 0,
{
    let lines = split_on(contents, '\n');
    lemma_kept_distinct(lines, lines.len() as int);
}

} // verus!

verus! {

/// Tokens written one per line: joined by `'\n'`, with no newline after the last.
pub open spec fn joined_lines(tokens: Seq<Seq<char>>) -> Seq<char>
    decreases tokens.len(),
{
    if tokens.len() == 0 {
        Seq::empty()
    } else if tokens.len() == 1 {
        tokens[0]
    } else {
        joined_lines(tokens.drop_last()) + seq!['\n'] + tokens.last()
    }
}

/// A token that a dictionary file can hold as it is: non-empty, without a
/// newline, and neither starting nor ending with white space.
pub open spec fn is_plain_token(t: Seq<char>) -> bool {
    &&& t.len() > 0
    &&& !t.contains('\n')
    &&& !is_white_space(t[0])
    &&& !is_white_space(t.last())
}

/// Text without the separator is a single piece.
proof fn lemma_split_single(t: Seq<char>, sep: char)
    requires
        !t.contains(sep),
    ensures
        split_on(t, sep) == seq![t],
    decreases t.len(),
{
    if t.len() == 0 {
        assert(t =~= Seq::<char>::empty());
    } else {
        let u = t.drop_last();
        assert(!u.contains(sep)) by {
            if u.contains(sep) {
                let k = choose|k: int| 0 <= k < u.len() && u[k] == sep;
                assert(t[k] == sep);
            }
        }
        lemma_split_single(u, sep);
        assert(t.last() != sep) by {
            assert(t[t.len() - 1] == t.last());
        }
        let p = split_on(u, sep);
        assert(split_on(t, sep) == p.update(p.len() - 1, p.last().push(t.last())));
        assert(u.push(t.last()) =~= t);
        assert(p.update(p.len() - 1, p.last().push(t.last())) =~= seq![t]);
    }
}

/// Splitting after a separator adds the text after it as one more piece.
proof fn lemma_split_append(s: Seq<char>, t: Seq<char>, sep: char)
    requires
        !t.contains(sep),
    ensures
        split_on(s + seq![sep] + t, sep) == split_on(s, sep).push(t),
    decreases t.len(),
{
    lemma_split_on_nonempty(s, sep);
    let whole = s + seq![sep] + t;
    if t.len() == 0 {
        assert(t =~= Seq::<char>::empty());
        assert(whole.last() == sep);
        assert(whole.drop_last() =~= s);
        assert(split_on(whole, sep) == split_on(whole.drop_last(), sep).push(Seq::<char>::empty()));
    } else {
        let u = t.drop_last();
        assert(!u.contains(sep)) by {
            if u.contains(sep) {
                let k = choose|k: int| 0 <= k < u.len() && u[k] == sep;
                assert(t[k] == sep);
            }
        }
        lemma_split_append(s, u, sep);
        assert(whole.drop_last() =~= s + seq![sep] + u);
        assert(whole.last() == t.last());
        assert(t.last() != sep) by {
            assert(t[t.len() - 1] == t.last());
        }
        let p = split_on(whole.drop_last(), sep);
        assert(p == split_on(s, sep).push(u));
        assert(split_on(whole, sep) == p.update(p.len() - 1, p.last().push(whole.last())));
        assert(u.push(t.last()) =~= t);
        assert(p.update(p.len() - 1, p.last().push(whole.last())) =~= split_on(s, sep).push(t));
    }
}

/// Splitting joined lines gives the lines back.
proof fn lemma_split_joined(tokens: Seq<Seq<char>>)
    requires
        tokens.len() >= 1,
        forall|i: int| 0 <= i < tokens.len() ==> !(#[trigger] tokens[i]).contains('\n'),
    ensures
        split_on(joined_lines(tokens), '\n') == tokens,
    decreases tokens.len(),
{
    if tokens.len() == 1 {
        lemma_split_single(tokens[0], '\n');
        assert(tokens == seq![tokens[0]]);
    } else {
        let init = tokens.drop_last();
        assert forall|i: int| 0 <= i < init.len() implies !(#[trigger] init[i]).contains('\n') by {
            assert(init[i] == tokens[i]);
        }
        lemma_split_joined(init);
        assert(!tokens[tokens.len() - 1].contains('\n'));
        lemma_split_append(joined_lines(init), tokens.last(), '\n');
        assert(init.push(tokens.last()) == tokens);
    }
}

/// A plain token is its own trimmed form.
proof fn lemma_plain_is_trimmed(t: Seq<char>)
    requires
        is_plain_token(t),
    ensures
        trimmed(t) == t,
{
    assert(trim_start(t) == t);
    assert(trim_end(t) == t);
}

/// When every line is a plain token, the kept tokens are the lines themselves.
proof fn lemma_kept_plain(lines: Seq<Seq<char>>, n: int)
    requires
        0 <= n <= lines.len(),
        forall|i: int| 0 <= i < lines.len() ==> is_plain_token(#[trigger] lines[i]),
    ensures
        kept_tokens(lines, n) == lines.take(n),
    decreases n,
{
    if n > 0 {
        lemma_kept_plain(lines, n - 1);
        lemma_plain_is_trimmed(lines[n - 1]);
        assert(lines.take(n - 1).push(lines[n - 1]) == lines.take(n));
    }
}

/// Distinct plain tokens written one per line are read back as they were
/// written: no line repeats an earlier token, and the dictionary's entries
/// are exactly the tokens, in order.
pub proof fn law_written_tokens_read_back(tokens: Seq<Seq<char>>)
    requires
        tokens.len() >= 1,
        all_distinct(tokens),
        forall|i: int| 0 <= i < tokens.len() ==> is_plain_token(#[trigger] tokens[i]),
    ensures
        forall|i: int|
            0 <= i < split_on(joined_lines(tokens), '\n').len() ==> !is_duplicate_line(
                split_on(joined_lines(tokens), '\n'),
                i,
            ),
        kept_tokens(split_on(joined_lines(tokens), '\n'), tokens.len() as int) == tokens,
        split_on(joined_lines(tokens), '\n').len() == tokens.len(),
{
    lemma_split_joined(tokens);
    let lines = split_on(joined_lines(tokens), '\n');
    assert(lines == tokens);
    lemma_kept_plain(tokens, tokens.len() as int);
    assert(tokens.take(tokens.len() as int) == tokens);
    assert forall|i: int| 0 <= i < lines.len() implies !is_duplicate_line(lines, i) by {
        lemma_plain_is_trimmed(tokens[i]);
        if is_duplicate_line(lines, i) {
            let j = choose|j: int| 0 <= j < i && #[trigger] line_token(lines, j) == line_token(lines, i);
            lemma_plain_is_trimmed(tokens[j]);
            assert(tokens[j] == tokens[i]);
        }
    }
}

} // verus!
