//! The symbols of a character-level bigram model and the encoding of words.

use vstd::prelude::*;
use crate::text::push_char;

verus! {

/// `.`, then every character of `s`, then `.`.
pub open spec fn dotted(s: Seq<char>) -> Seq<char> {
    seq!['.'] + s + seq!['.']
}

/// The characters of `s` between two dots, the dot marking where a word
/// starts and where it ends.
pub fn wrap_dots(s: &str) -> (out: Vec<char>)
    ensures
        out@ == dotted(s@),
{
    let mut out: Vec<char> = Vec::new();
    out.push('.');
    for c in it: s.chars()
        invariant
            it.seq() == s@,
            out@ == seq!['.'] + s@.subrange(0, it.index()),
    {
        out.push(c);
        proof {
            assert(out@ =~= seq!['.'] + s@.subrange(0, it.index() + 1));
        }
    }
    out.push('.');
    proof {
        assert(out@ =~= dotted(s@));
    }
    out
}

/// One symbol of the model: a character, or a marker for where a word
/// starts or ends when those are not characters themselves.
#[derive(Clone, Copy, PartialEq, Eq, Structural, Debug)]
pub enum Token {
    Char(char),
    Start,
    End,
}

/// The lower-case letters `a` to `z` (the characters 97 to 122) as tokens.
pub open spec fn letter_tokens() -> Seq<Token> {
    Seq::new(26, |i: int| Token::Char((97 + i) as char))
}

/// The symbols of a model, numbered by their position, with the positions
/// of the symbols that open and close every word.
pub struct Vocab {
    tokens: Vec<Token>,
    start: usize,
    end: usize,
}

impl Vocab {
    /// The symbols, by number.
    pub closed spec fn tokens(&self) -> Seq<Token> {
        self.tokens@
    }

    /// The number of the symbol that opens a word.
    pub closed spec fn start(&self) -> int {
        self.start as int
    }

    /// The number of the symbol that closes a word.
    pub closed spec fn end(&self) -> int {
        self.end as int
    }

    /// The symbols are distinct and the markers are among them.
    pub open spec fn wf(&self) -> bool {
        &&& self.tokens().no_duplicates()
        &&& self.tokens().len() <= usize::MAX
        &&& 0 <= self.start() < self.tokens().len()
        &&& 0 <= self.end() < self.tokens().len()
    }

    /// Whether `c` is one of the symbols.
    pub open spec fn knows(&self, c: char) -> bool {
        self.tokens().contains(Token::Char(c))
    }

    /// Whether every character of `s` is one of the symbols.
    pub open spec fn covers(&self, s: Seq<char>) -> bool {
        forall|i: int| 0 <= i < s.len() ==> self.knows(#[trigger] s[i])
    }

    /// The number of the symbol `t`.
    pub open spec fn index_of(&self, t: Token) -> int {
        choose|i: int| 0 <= i < self.tokens().len() && self.tokens()[i] == t
    }

    /// The numbers of the symbols of a word: the opening marker, one per
    /// character, the closing marker.
    pub open spec fn encoding(&self, s: Seq<char>) -> Seq<usize> {
        seq![self.start() as usize] + s.map_values(|c: char| self.index_of(Token::Char(c)) as usize)
            + seq![self.end() as usize]
    }

    fn letters_vec() -> (v: Vec<Token>)
        ensures
            v@ == letter_tokens(),
    {
        let mut v: Vec<Token> = Vec::new();
        let mut i: u8 = 0;
        while i < 26
            invariant
                i <= 26,
                v@ == letter_tokens().subrange(0, i as int),
            decreases 26 - i,
        {
            let c = (97u8 + i) as char;
            v.push(Token::Char(c));
            i = i + 1;
            proof {
                assert(v@ =~= letter_tokens().subrange(0, i as int));
            }
        }
        proof {
            assert(v@ =~= letter_tokens());
        }
        v
    }

    /// `.` as number 0, then the letters: `.` opens and closes every word.
    pub fn dot_first() -> (v: Vocab)
        ensures
            v.wf(),
            v.tokens() == seq![Token::Char('.')] + letter_tokens(),
            v.start() == 0,
            v.end() == 0,
    {
        let mut tokens: Vec<Token> = Vec::new();
        tokens.push(Token::Char('.'));
        let mut rest = Self::letters_vec();
        tokens.append(&mut rest);
        let v = Vocab { tokens, start: 0, end: 0 };
        proof {
            assert(v.tokens() =~= seq![Token::Char('.')] + letter_tokens());
            assert(v.tokens().no_duplicates());
        }
        v
    }

    /// The letters, then `.` as number 26: `.` opens and closes every word.
    pub fn dot_last() -> (v: Vocab)
        ensures
            v.wf(),
            v.tokens() == letter_tokens().push(Token::Char('.')),
            v.start() == 26,
            v.end() == 26,
    {
        let mut tokens = Self::letters_vec();
        tokens.push(Token::Char('.'));
        let v = Vocab { tokens, start: 26, end: 26 };
        proof {
            assert(v.tokens() =~= letter_tokens().push(Token::Char('.')));
            assert(v.tokens().no_duplicates());
        }
        v
    }

    /// The start marker as number 0, the letters, the end marker as number 27.
    pub fn with_markers() -> (v: Vocab)
        ensures
            v.wf(),
            v.tokens() == seq![Token::Start] + letter_tokens() + seq![Token::End],
            v.start() == 0,
            v.end() == 27,
    {
        let mut tokens: Vec<Token> = Vec::new();
        tokens.push(Token::Start);
        let mut rest = Self::letters_vec();
        tokens.append(&mut rest);
        tokens.push(Token::End);
        let v = Vocab { tokens, start: 0, end: 27 };
        proof {
            assert(v.tokens() =~= seq![Token::Start] + letter_tokens() + seq![Token::End]);
            assert(v.tokens().no_duplicates());
        }
        v
    }
}

/// Each symbol of `e` with the one that follows it, in order.
pub open spec fn adjacent_pairs(e: Seq<usize>) -> Seq<(usize, usize)> {
    Seq::new(if e.len() >= 1 { (e.len() - 1) as nat } else { 0 }, |k: int| (e[k], e[k + 1]))
}

/// The characters that spell a token when a word is written out.
pub open spec fn token_text(t: Token) -> Seq<char> {
    match t {
        Token::Char(c) => seq![c],
        Token::Start => seq!['<', 'S', '>'],
        Token::End => seq!['<', 'E', '>'],
    }
}

/// The text of the tokens numbered `word`, one after the other.
pub open spec fn spell(tokens: Seq<Token>, word: Seq<usize>) -> Seq<char>
    decreases word.len(),
{
    if word.len() == 0 {
        Seq::empty()
    } else {
        spell(tokens, word.drop_last()) + token_text(tokens[word.last() as int])
    }
}

/// Where `.` both opens and closes words.
pub open spec fn dot_marked(v: Vocab) -> bool {
    &&& v.tokens()[v.start()] == Token::Char('.')
    &&& v.tokens()[v.end()] == Token::Char('.')
}

pub proof fn lemma_spell_add(tokens: Seq<Token>, a: Seq<usize>, b: Seq<usize>)
    ensures
        spell(tokens, a + b) == spell(tokens, a) + spell(tokens, b),
    decreases b.len(),
{
    if b.len() == 0 {
        assert(a + b =~= a);
        assert(spell(tokens, a) + spell(tokens, b) =~= spell(tokens, a));
    } else {
        assert((a + b).drop_last() =~= a + b.drop_last());
        lemma_spell_add(tokens, a, b.drop_last());
        assert(spell(tokens, a) + spell(tokens, b.drop_last()) + token_text(tokens[b.last() as int])
            =~= spell(tokens, a) + (spell(tokens, b.drop_last()) + token_text(tokens[b.last() as int])));
    }
}

proof fn lemma_spell_chars(v: Vocab, s: Seq<char>)
    requires
        v.wf(),
        v.covers(s),
    ensures
        spell(v.tokens(), s.map_values(|c: char| v.index_of(Token::Char(c)) as usize)) == s,
    decreases s.len(),
{
    let m = s.map_values(|c: char| v.index_of(Token::Char(c)) as usize);
    if s.len() > 0 {
        assert(m.drop_last() =~= s.drop_last().map_values(|c: char| v.index_of(Token::Char(c)) as usize));
        lemma_spell_chars(v, s.drop_last());
        let c = s.last();
        assert(v.knows(s[s.len() - 1]));
        let k = v.index_of(Token::Char(c));
        assert(0 <= k < v.tokens().len() && v.tokens()[k] == Token::Char(c));
        assert(m.last() as int == k);
        assert(token_text(v.tokens()[m.last() as int]) == seq![c]);
        assert(s.drop_last() + seq![c] =~= s);
    } else {
        assert(m =~= Seq::<usize>::empty());
    }
}

/// Law: where `.` marks both ends of a word, spelling the symbols of a
/// word's encoding gives back the word between two dots.
pub proof fn lemma_decode_encode(v: Vocab, s: Seq<char>)
    requires
        v.wf(),
        dot_marked(v),
        v.covers(s),
    ensures
        spell(v.tokens(), v.encoding(s)) == dotted(s),
{
    let m = s.map_values(|c: char| v.index_of(Token::Char(c)) as usize);
    let st = seq![v.start() as usize];
    let en = seq![v.end() as usize];
    lemma_spell_add(v.tokens(), st + m, en);
    lemma_spell_add(v.tokens(), st, m);
    lemma_spell_chars(v, s);
    assert(st.drop_last() =~= Seq::<usize>::empty());
    assert(en.drop_last() =~= Seq::<usize>::empty());
    assert(st.last() as int == v.start());
    assert(en.last() as int == v.end());
    assert(spell(v.tokens(), Seq::<usize>::empty()) =~= Seq::<char>::empty());
    assert(spell(v.tokens(), st) =~= seq!['.']);
    assert(spell(v.tokens(), en) =~= seq!['.']);
}

/// Law: where `.` marks both ends of a word, a word's encoding is the
/// number of each character of the word wrapped in dots.
pub proof fn lemma_encoding_wraps_dots(v: Vocab, s: Seq<char>)
    requires
        v.wf(),
        dot_marked(v),
        v.covers(s),
    ensures
        v.encoding(s) == dotted(s).map_values(|c: char| v.index_of(Token::Char(c)) as usize),
{
    let k = v.index_of(Token::Char('.'));
    assert(v.tokens().contains(Token::Char('.')));
    assert(0 <= k < v.tokens().len() && v.tokens()[k] == Token::Char('.'));
    assert(k == v.start());
    assert(k == v.end());
    assert(v.encoding(s) =~= dotted(s).map_values(|c: char| v.index_of(Token::Char(c)) as usize));
}

impl Vocab {
    /// How many symbols there are.
    pub fn len(&self) -> (n: usize)
        ensures
            n == self.tokens().len(),
    {
        self.tokens.len()
    }

    /// The number of the symbol that opens a word.
    pub fn start_index(&self) -> (i: usize)
        ensures
            i == self.start(),
    {
        self.start
    }

    /// The number of the symbol that closes a word.
    pub fn end_index(&self) -> (i: usize)
        ensures
            i == self.end(),
    {
        self.end
    }

    /// The symbol numbered `i`.
    pub fn itos(&self, i: usize) -> (t: Token)
        requires
            i < self.tokens().len(),
        ensures
            t == self.tokens()[i as int],
    {
        self.tokens[i]
    }

    /// The number of the character `c`, if it is a symbol.
    pub fn stoi(&self, c: char) -> (r: Option<usize>)
        requires
            self.wf(),
        ensures
            r is Some <==> self.knows(c),
            r matches Some(i) ==> i < self.tokens().len() && self.tokens()[i as int] == Token::Char(c)
                && i == self.index_of(Token::Char(c)),
    {
        let n = self.tokens.len();
        let mut i: usize = 0;
        while i < n
            invariant
                self.wf(),
                n == self.tokens().len(),
                i <= n,
                forall|j: int| 0 <= j < i ==> self.tokens()[j] != Token::Char(c),
            decreases n - i,
        {
            if self.tokens[i] == Token::Char(c) {
                proof {
                    let k = self.index_of(Token::Char(c));
                    assert(self.tokens()[k] == Token::Char(c));
                    assert(k == i);
                }
                return Some(i);
            }
            i = i + 1;
        }
        None
    }

    /// Whether every character of `s` is a symbol.
    pub fn covers_word(&self, s: &str) -> (b: bool)
        requires
            self.wf(),
        ensures
            b == self.covers(s@),
    {
        for c in it: s.chars()
            invariant
                self.wf(),
                it.seq() == s@,
                self.covers(s@.subrange(0, it.index())),
        {
            if self.stoi(c).is_none() {
                proof {
                    assert(s@[it.index()] == c);
                }
                return false;
            }
            proof {
                assert forall|i: int| 0 <= i < it.index() + 1 implies self.knows(
                    #[trigger] s@.subrange(0, it.index() + 1)[i],
                ) by {
                    if i < it.index() {
                        assert(s@.subrange(0, it.index() + 1)[i] == s@.subrange(0, it.index())[i]);
                    }
                }
            }
        }
        proof {
            assert(s@.subrange(0, s@.len() as int) =~= s@);
        }
        true
    }

    /// The numbers of the symbols of `s`, between the opening and the
    /// closing marker.
    pub fn encode(&self, s: &str) -> (e: Vec<usize>)
        requires
            self.wf(),
            self.covers(s@),
        ensures
            e@ == self.encoding(s@),
            forall|i: int| 0 <= i < e@.len() ==> #[trigger] e@[i] < self.tokens().len(),
    {
        let mut e: Vec<usize> = Vec::new();
        e.push(self.start);
        for c in it: s.chars()
            invariant
                self.wf(),
                self.covers(s@),
                it.seq() == s@,
                e@ == seq![self.start() as usize] + s@.subrange(0, it.index()).map_values(
                    |c: char| self.index_of(Token::Char(c)) as usize,
                ),
        {
            assert(s@[it.index()] == c);
            assert(self.knows(s@[it.index()]));
            let i = self.stoi(c).unwrap();
            e.push(i);
            proof {
                assert(e@ =~= seq![self.start() as usize] + s@.subrange(0, it.index() + 1).map_values(
                    |c: char| self.index_of(Token::Char(c)) as usize,
                ));
            }
        }
        e.push(self.end);
        proof {
            assert(s@.subrange(0, s@.len() as int) =~= s@);
            assert(e@ =~= self.encoding(s@));
            assert forall|i: int| 0 <= i < e@.len() implies #[trigger] e@[i] < self.tokens().len() by {
                if 0 < i < e@.len() - 1 {
                    let c = s@[i - 1];
                    assert(self.knows(c));
                    let k = self.index_of(Token::Char(c));
                    assert(0 <= k < self.tokens().len() && self.tokens()[k] == Token::Char(c));
                }
            }
        }
        e
    }

    /// The bigrams of `s` read between the markers: each symbol with the
    /// symbol that follows it, first to last.
    pub fn bigrams(&self, s: &str) -> (pairs: Vec<(usize, usize)>)
        requires
            self.wf(),
            self.covers(s@),
        ensures
            pairs@ == adjacent_pairs(self.encoding(s@)),
            forall|k: int| 0 <= k < pairs@.len() ==> (#[trigger] pairs@[k]).0 < self.tokens().len()
                && pairs@[k].1 < self.tokens().len(),
    {
        let e = self.encode(s);
        let n = e.len();
        let mut pairs: Vec<(usize, usize)> = Vec::new();
        let mut k: usize = 1;
        while k < n
            invariant
                n == e@.len(),
                n >= 2,
                1 <= k <= n,
                e@ == self.encoding(s@),
                forall|i: int| 0 <= i < e@.len() ==> #[trigger] e@[i] < self.tokens().len(),
                pairs@ == adjacent_pairs(e@).subrange(0, k - 1),
            decreases n - k,
        {
            pairs.push((e[k - 1], e[k]));
            k = k + 1;
            proof {
                assert(pairs@ =~= adjacent_pairs(e@).subrange(0, k - 1));
            }
        }
        proof {
            assert(pairs@ =~= adjacent_pairs(e@));
            assert forall|k: int| 0 <= k < pairs@.len() implies (#[trigger] pairs@[k]).0 < self.tokens().len()
                && pairs@[k].1 < self.tokens().len() by {
                assert(pairs@[k] == (e@[k], e@[k + 1]));
            }
        }
        pairs
    }

    /// The word spelled by the symbols numbered `word`.
    pub fn decode(&self, word: &Vec<usize>) -> (s: String)
        requires
            forall|i: int| 0 <= i < word@.len() ==> #[trigger] word@[i] < self.tokens().len(),
        ensures
            s@ == spell(self.tokens(), word@),
    {
        let mut s = String::new();
        let n = word.len();
        let mut k: usize = 0;
        while k < n
            invariant
                n == word@.len(),
                k <= n,
                forall|i: int| 0 <= i < word@.len() ==> #[trigger] word@[i] < self.tokens().len(),
                s@ == spell(self.tokens(), word@.subrange(0, k as int)),
            decreases n - k,
        {
            match self.tokens[word[k]] {
                Token::Char(c) => {
                    push_char(&mut s, c);
                },
                Token::Start => {
                    push_char(&mut s, '<');
                    push_char(&mut s, 'S');
                    push_char(&mut s, '>');
                },
                Token::End => {
                    push_char(&mut s, '<');
                    push_char(&mut s, 'E');
                    push_char(&mut s, '>');
                },
            }
            k = k + 1;
            proof {
                assert(word@.subrange(0, k as int).drop_last() =~= word@.subrange(0, k - 1));
                assert(s@ =~= spell(self.tokens(), word@.subrange(0, k as int)));
            }
        }
        proof {
            assert(word@.subrange(0, n as int) =~= word@);
        }
        s
    }
}

} // verus!
