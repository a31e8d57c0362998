//! The tokenizer: turns a character stream into a raw token tree.
//!
//! A raw tree is made of `Symbol` leaves and `List` nodes.  The scan keeps
//! a parenthesis depth and a quote flag; a parenthesised group is collected
//! as text and re-tokenized recursively when its closing parenthesis
//! arrives.  Tokenizing never fails: unmatched closing parentheses at
//! depth zero are kept as literal text, and an unterminated quote leaves
//! its text to be flushed as a trailing symbol at end of input.
use vstd::prelude::*;

use crate::text::chars_of;
use crate::text::string_from_chars;
use crate::text::subchars;

verus! {

/// Mathematical shape of a raw token tree.
pub enum TokV {
    Symbol(Seq<char>),
    List(Seq<TokV>),
}

/// A raw token tree: either one symbol's text, or an ordered group.
#[derive(Debug, PartialEq, Eq)]
pub enum ParserToken {
    Symbol(String),
    List(Vec<ParserToken>),
}

impl View for ParserToken {
    type V = TokV;

    open spec fn view(&self) -> TokV
        decreases self,
    {
        match self {
            ParserToken::Symbol(s) => TokV::Symbol(s@),
            ParserToken::List(l) => TokV::List(toks_view(l@)),
        }
    }
}

/// The views of a sequence of raw tokens, in order.
pub open spec fn toks_view(l: Seq<ParserToken>) -> Seq<TokV>
    decreases l,
{
    if l.len() == 0 {
        Seq::empty()
    } else {
        toks_view(l.subrange(0, l.len() - 1)).push(l[l.len() - 1]@)
    }
}

/// What one scan pass emits before recursion: a finished symbol's text,
/// or the collected text of one parenthesised group.
pub enum RawItem {
    RawSymbol(Seq<char>),
    RawGroup(Seq<char>),
}

/// The scan state: parenthesis depth, quote flag, the text collected for
/// the current token, and the items flushed so far.
pub struct ScanState {
    pub depth: nat,
    pub in_quote: bool,
    pub pending: Seq<char>,
    pub items: Seq<RawItem>,
}

pub open spec fn scan_init() -> ScanState {
    ScanState { depth: 0, in_quote: false, pending: Seq::empty(), items: Seq::empty() }
}

/// One character of the scan.  The dispatch is on the character alone;
/// the quote flag only changes what a space does.
pub open spec fn scan_step(st: ScanState, c: char) -> ScanState {
    if c == ' ' {
        if st.pending.len() == 0 {
            st
        } else if st.in_quote || st.depth > 0 {
            ScanState { pending: st.pending.push(' '), ..st }
        } else {
            ScanState {
                pending: Seq::empty(),
                items: st.items.push(RawItem::RawSymbol(st.pending)),
                ..st
            }
        }
    } else if c == '(' {
        if st.depth == 0 {
            ScanState { depth: 1, ..st }
        } else {
            ScanState { depth: st.depth + 1, pending: st.pending.push('('), ..st }
        }
    } else if c == ')' {
        if st.depth == 1 {
            ScanState {
                depth: 0,
                pending: Seq::empty(),
                items: st.items.push(RawItem::RawGroup(st.pending)),
                ..st
            }
        } else if st.depth == 0 {
            ScanState { pending: st.pending.push(')'), ..st }
        } else {
            ScanState { depth: (st.depth - 1) as nat, pending: st.pending.push(')'), ..st }
        }
    } else if c == '\'' {
        if st.in_quote {
            ScanState {
                in_quote: false,
                pending: Seq::empty(),
                items: st.items.push(RawItem::RawSymbol(st.pending.push('\''))),
                ..st
            }
        } else {
            ScanState { in_quote: true, pending: st.pending.push('\''), ..st }
        }
    } else if c == '\n' || c == '\t' {
        st
    } else {
        ScanState { pending: st.pending.push(c), ..st }
    }
}

pub open spec fn scan_from(s: Seq<char>, st: ScanState) -> ScanState
    decreases s.len(),
{
    if s.len() == 0 {
        st
    } else {
        scan_from(s.drop_first(), scan_step(st, s[0]))
    }
}

/// The items one scan pass over `s` yields, the trailing flush included.
pub open spec fn scan_items(s: Seq<char>) -> Seq<RawItem> {
    let fin = scan_from(s, scan_init());
    if fin.pending.len() == 0 {
        fin.items
    } else {
        fin.items.push(RawItem::RawSymbol(fin.pending))
    }
}

/// The tree a whole line tokenizes to.  A group's text is re-tokenized
/// recursively; the scan drops at least the group's opening
/// parenthesis, so a group's text is always shorter than the line it
/// came from and the bound guarding the recursion is never reached.
pub open spec fn parse_spec(s: Seq<char>) -> TokV
    decreases s.len(), 1nat, 0nat,
{
    TokV::List(parse_items_spec(s.len(), scan_items(s)))
}

pub open spec fn parse_items_spec(bound: nat, items: Seq<RawItem>) -> Seq<TokV>
    decreases bound, 0nat, items.len(),
{
    if items.len() == 0 {
        Seq::empty()
    } else {
        seq![parse_item_spec(bound, items[0])] + parse_items_spec(bound, items.drop_first())
    }
}

pub open spec fn parse_item_spec(bound: nat, item: RawItem) -> TokV
    decreases bound, 0nat, 0nat,
{
    match item {
        RawItem::RawSymbol(t) => TokV::Symbol(t),
        RawItem::RawGroup(g) => if g.len() < bound {
            parse_spec(g)
        } else {
            TokV::List(Seq::empty())
        },
    }
}

pub proof fn lemma_toks_view_elems(l: Seq<ParserToken>)
    ensures
        toks_view(l).len() == l.len(),
        forall|i: int| 0 <= i < l.len() ==> toks_view(l)[i] == #[trigger] l[i]@,
    decreases l.len(),
{
    if l.len() > 0 {
        let sub = l.subrange(0, l.len() - 1);
        lemma_toks_view_elems(sub);
        assert(toks_view(l) == toks_view(sub).push(l[l.len() - 1]@));
        assert forall|i: int| 0 <= i < l.len() implies toks_view(l)[i] == #[trigger] l[i]@ by {
            if i < l.len() - 1 {
                assert(toks_view(l)[i] == toks_view(sub)[i]);
                assert(sub[i] == l[i]);
            }
        }
    }
}

pub proof fn lemma_parse_items_elems(bound: nat, items: Seq<RawItem>)
    ensures
        parse_items_spec(bound, items).len() == items.len(),
        forall|i: int|
            0 <= i < items.len() ==> parse_items_spec(bound, items)[i] == parse_item_spec(
                bound,
                #[trigger] items[i],
            ),
    decreases items.len(),
{
    if items.len() > 0 {
        let rest = items.drop_first();
        lemma_parse_items_elems(bound, rest);
        assert forall|i: int|
            0 <= i < items.len() implies parse_items_spec(bound, items)[i] == parse_item_spec(
            bound,
            #[trigger] items[i],
        ) by {
            if i > 0 {
                assert(rest[i - 1] == items[i]);
                assert(parse_items_spec(bound, items)[i] == parse_items_spec(bound, rest)[i - 1]);
            }
        }
    }
}

pub proof fn lemma_scan_from_concat(a: Seq<char>, b: Seq<char>, st: ScanState)
    ensures
        scan_from(a + b, st) == scan_from(b, scan_from(a, st)),
    decreases a.len(),
{
    if a.len() == 0 {
        assert(a + b =~= b);
    } else {
        assert((a + b).drop_first() =~= a.drop_first() + b);
        lemma_scan_from_concat(a.drop_first(), b, scan_step(st, a[0]));
    }
}

/// One more character moves the scan one step.
pub proof fn lemma_scan_take_step(s: Seq<char>, i: int, st: ScanState)
    requires
        0 <= i < s.len(),
    ensures
        scan_from(s.take(i + 1), st) == scan_step(scan_from(s.take(i), st), s[i]),
{
    assert(s.take(i + 1) =~= s.take(i) + seq![s[i]]);
    lemma_scan_from_concat(s.take(i), seq![s[i]], st);
    let st2 = scan_from(s.take(i), st);
    assert(seq![s[i]].drop_first() =~= Seq::<char>::empty());
    assert(seq![s[i]][0] == s[i]);
    assert(scan_from(Seq::<char>::empty(), scan_step(st2, s[i])) == scan_step(st2, s[i]));
    assert(scan_from(seq![s[i]], st2) == scan_step(st2, s[i]));
}

/// The collected text can hold at most one character per character read,
/// and the parenthesis depth can grow at most one per character.
pub proof fn lemma_scan_pending_bound(s: Seq<char>, st: ScanState)
    ensures
        scan_from(s, st).pending.len() <= st.pending.len() + s.len(),
        scan_from(s, st).depth <= st.depth + s.len(),
    decreases s.len(),
{
    if s.len() > 0 {
        lemma_scan_pending_bound(s.drop_first(), scan_step(st, s[0]));
    }
}

/// The buffer of one scan in progress, as the tokenizer keeps it.
pub struct ParserBuffer {
    pub paren_count: usize,
    pub in_quote: bool,
    pub token: Vec<char>,
    pub tokens: Vec<ParserToken>,
}

/// The buffer fields agree with a scan state, and every already-parsed
/// token is the parse of the matching scanned item, whose text (for a
/// group) stays under `bound`.
pub open spec fn buf_matches(b: ParserBuffer, st: ScanState, bound: nat) -> bool {
    &&& b.paren_count == st.depth
    &&& b.in_quote == st.in_quote
    &&& b.token@ == st.pending
    &&& b.tokens@.len() == st.items.len()
    &&& forall|j: int|
        0 <= j < st.items.len() ==> item_parsed(b.tokens@[j]@, #[trigger] st.items[j], bound)
}

pub open spec fn item_parsed(tv: TokV, item: RawItem, bound: nat) -> bool {
    match item {
        RawItem::RawSymbol(t) => tv == TokV::Symbol(t),
        RawItem::RawGroup(g) => g.len() < bound && tv == parse_spec(g),
    }
}

impl ParserBuffer {
    pub fn new() -> (r: ParserBuffer)
        ensures
            r.paren_count == 0,
            !r.in_quote,
            r.token@ == Seq::<char>::empty(),
            r.tokens@ == Seq::<ParserToken>::empty(),
    {
        ParserBuffer { in_quote: false, paren_count: 0, tokens: Vec::new(), token: Vec::new() }
    }

    /// An opening parenthesis: the outermost one starts a group and is
    /// dropped; a nested one is kept as literal text.
    pub fn push_open_paren(&mut self)
        requires
            old(self).paren_count < usize::MAX,
        ensures
            final(self).paren_count == old(self).paren_count + 1,
            final(self).in_quote == old(self).in_quote,
            final(self).tokens@ == old(self).tokens@,
            final(self).token@ == if old(self).paren_count == 0 {
                old(self).token@
            } else {
                old(self).token@.push('(')
            },
    {
        if self.paren_count != 0 {
            self.token.push('(');
        }
        self.paren_count = self.paren_count + 1;
    }

    /// A closing parenthesis.  At depth one it ends the current group:
    /// the collected text is tokenized recursively and the sub-tree is
    /// appended.  At depth zero (an unmatched closer) it is kept as
    /// literal text; deeper down it is kept and the depth drops.
    pub fn push_close_paren(&mut self)
        ensures
            final(self).in_quote == old(self).in_quote,
            old(self).paren_count == 1 ==> {
                &&& final(self).paren_count == 0
                &&& final(self).token@ == Seq::<char>::empty()
                &&& final(self).tokens@.len() == old(self).tokens@.len() + 1
                &&& final(self).tokens@.subrange(0, old(self).tokens@.len() as int) == old(self).tokens@
                &&& final(self).tokens@[old(self).tokens@.len() as int]@ == parse_spec(old(self).token@)
            },
            old(self).paren_count != 1 ==> {
                &&& final(self).tokens@ == old(self).tokens@
                &&& final(self).token@ == old(self).token@.push(')')
                &&& final(self).paren_count == if old(self).paren_count == 0 {
                    0usize
                } else {
                    (old(self).paren_count - 1) as usize
                }
            },
        decreases self.token@.len() + 1, 0nat,
    {
        if self.paren_count == 1 {
            self.paren_count = 0;
            let sub = parse_chars(&self.token);
            let ghost old_tokens = self.tokens@;
            self.tokens.push(sub);
            self.token = Vec::new();
            proof {
                assert(self.tokens@.subrange(0, old_tokens.len() as int) =~= old_tokens);
            }
        } else {
            if self.paren_count > 0 {
                self.paren_count = self.paren_count - 1;
            }
            self.token.push(')');
        }
    }

    /// A quote character is always kept as literal text; the closing one
    /// of a pair flushes the collected text as one symbol.
    pub fn push_quote(&mut self)
        ensures
            final(self).paren_count == old(self).paren_count,
            final(self).in_quote == !old(self).in_quote,
            old(self).in_quote ==> {
                &&& final(self).token@ == Seq::<char>::empty()
                &&& final(self).tokens@.len() == old(self).tokens@.len() + 1
                &&& final(self).tokens@.subrange(0, old(self).tokens@.len() as int) == old(self).tokens@
                &&& final(self).tokens@[old(self).tokens@.len() as int]@ == TokV::Symbol(
                    old(self).token@.push('\''),
                )
            },
            !old(self).in_quote ==> {
                &&& final(self).token@ == old(self).token@.push('\'')
                &&& final(self).tokens@ == old(self).tokens@
            },
    {
        self.token.push('\'');
        if self.in_quote {
            self.in_quote = false;
            let sym = string_from_chars(&self.token);
            let ghost old_tokens = self.tokens@;
            self.tokens.push(ParserToken::Symbol(sym));
            self.token = Vec::new();
            proof {
                assert(self.tokens@.subrange(0, old_tokens.len() as int) =~= old_tokens);
            }
        } else {
            self.in_quote = true;
        }
    }

    /// An ordinary character is collected into the current token.
    pub fn push_char(&mut self, c: char)
        ensures
            final(self).paren_count == old(self).paren_count,
            final(self).in_quote == old(self).in_quote,
            final(self).tokens@ == old(self).tokens@,
            final(self).token@ == old(self).token@.push(c),
    {
        self.token.push(c);
    }

    /// A space: a separator at the top level outside quotes, where it
    /// flushes a non-empty token as a symbol; inside quotes or inside a
    /// group it is kept as a literal space; with nothing collected it is
    /// dropped.
    pub fn push_symbol(&mut self)
        ensures
            final(self).paren_count == old(self).paren_count,
            final(self).in_quote == old(self).in_quote,
            old(self).token@.len() == 0 ==> *final(self) == *old(self),
            old(self).token@.len() != 0 && (old(self).in_quote || old(self).paren_count > 0)
                ==> {
                &&& final(self).token@ == old(self).token@.push(' ')
                &&& final(self).tokens@ == old(self).tokens@
            },
            old(self).token@.len() != 0 && !old(self).in_quote && old(self).paren_count == 0
                ==> {
                &&& final(self).token@ == Seq::<char>::empty()
                &&& final(self).tokens@.len() == old(self).tokens@.len() + 1
                &&& final(self).tokens@.subrange(0, old(self).tokens@.len() as int) == old(self).tokens@
                &&& final(self).tokens@[old(self).tokens@.len() as int]@ == TokV::Symbol(
                    old(self).token@,
                )
            },
    {
        if self.token.len() == 0 {
            return ;
        }
        if self.in_quote {
            self.token.push(' ');
            return ;
        }
        if self.paren_count > 0 {
            self.token.push(' ');
            return ;
        }
        let sym = string_from_chars(&self.token);
        let ghost old_tokens = self.tokens@;
        self.tokens.push(ParserToken::Symbol(sym));
        self.token = Vec::new();
        proof {
            assert(self.tokens@.subrange(0, old_tokens.len() as int) =~= old_tokens);
        }
    }
}

/// Tokenizes one statement given as characters.
fn parse_chars(chars: &Vec<char>) -> (r: ParserToken)
    ensures
        r@ == parse_spec(chars@),
    decreases chars@.len(), 1nat,
{
    let ghost s = chars@;
    let mut buf = ParserBuffer::new();
    let mut i: usize = 0;
    while i < chars.len()
        invariant
            0 <= i <= s.len(),
            chars@ == s,
            buf_matches(buf, scan_from(s.take(i as int), scan_init()), s.len()),
            buf.token@.len() <= i,
            buf.paren_count <= i,
        decreases s.len() - i,
    {
        let ghost st = scan_from(s.take(i as int), scan_init());
        proof {
            lemma_scan_take_step(s, i as int, scan_init());
            lemma_scan_pending_bound(s.take(i as int), scan_init());
        }
        let c = chars[i];
        if c == ' ' {
            buf.push_symbol();
        } else if c == '(' {
            buf.push_open_paren();
        } else if c == ')' {
            buf.push_close_paren();
        } else if c == '\'' {
            buf.push_quote();
        } else if c == '\n' || c == '\t' {
        } else {
            buf.push_char(c);
        }
        i = i + 1;
        proof {
            lemma_scan_pending_bound(s.take(i as int), scan_init());
        }
    }
    proof {
        assert(s.take(i as int) =~= s);
    }
    let ghost fin = scan_from(s, scan_init());
    if buf.token.len() > 0 {
        let sym = string_from_chars(&buf.token);
        let ghost old_tokens = buf.tokens@;
        buf.tokens.push(ParserToken::Symbol(sym));
        proof {
            assert(buf.tokens@.subrange(0, old_tokens.len() as int) =~= old_tokens);
        }
    }
    proof {
        let items = scan_items(s);
        lemma_toks_view_elems(buf.tokens@);
        lemma_parse_items_elems(s.len(), items);
        assert forall|j: int|
            0 <= j < items.len() implies toks_view(buf.tokens@)[j] == parse_items_spec(
            s.len(),
            items,
        )[j] by {
            assert(item_parsed(buf.tokens@[j]@, items[j], s.len()));
        }
        assert(toks_view(buf.tokens@) =~= parse_items_spec(s.len(), items));
    }
    ParserToken::List(buf.tokens)
}

/// Tokenizes one statement: the result is always a `List`, even for a
/// single bare token.
pub fn parse_line(code_str: &str) -> (r: ParserToken)
    ensures
        r@ == parse_spec(code_str@),
{
    let chars = chars_of(code_str);
    parse_chars(&chars)
}

/// The index of the first statement separator (`;`), or -1.
pub open spec fn first_semi(s: Seq<char>) -> int
    decreases s.len(),
{
    if s.len() == 0 {
        -1
    } else if s[0] == ';' {
        0
    } else {
        let r = first_semi(s.drop_first());
        if r < 0 {
            -1
        } else {
            r + 1
        }
    }
}

pub proof fn lemma_first_semi(s: Seq<char>)
    ensures
        first_semi(s) == -1 ==> forall|i: int| 0 <= i < s.len() ==> (#[trigger] s[i]) != ';',
        first_semi(s) >= 0 ==> {
            &&& first_semi(s) < s.len()
            &&& s[first_semi(s)] == ';'
            &&& forall|i: int| 0 <= i < first_semi(s) ==> (#[trigger] s[i]) != ';'
        },
    decreases s.len(),
{
    if s.len() > 0 && s[0] != ';' {
        let r = s.drop_first();
        lemma_first_semi(r);
        if first_semi(r) < 0 {
            assert forall|i: int| 0 <= i < s.len() implies (#[trigger] s[i]) != ';' by {
                if i >= 1 {
                    assert(s[i] == r[i - 1]);
                }
            }
        } else {
            assert(s[first_semi(s)] == r[first_semi(r)]);
            assert forall|i: int| 0 <= i < first_semi(s) implies (#[trigger] s[i]) != ';' by {
                if i >= 1 {
                    assert(s[i] == r[i - 1]);
                }
            }
        }
    }
}

/// The statements of a program: the segments between `;` separators,
/// in order; with no separator the whole text is one statement, so the
/// empty text holds one empty statement.
pub open spec fn split_stmts(s: Seq<char>) -> Seq<Seq<char>>
    decreases s.len(),
{
    let k = first_semi(s);
    if k < 0 || k >= s.len() {
        seq![s]
    } else {
        seq![s.take(k)] + split_stmts(s.skip(k + 1))
    }
}

/// Tokenizes a whole program: each `;`-separated statement on its own.
pub fn parse_lines(code_str: &str) -> (r: Vec<ParserToken>)
    ensures
        r@.len() == split_stmts(code_str@).len(),
        forall|i: int|
            0 <= i < r@.len() ==> #[trigger] r@[i]@ == parse_spec(split_stmts(code_str@)[i]),
{
    let chars = chars_of(code_str);
    let mut out: Vec<ParserToken> = Vec::new();
    parse_segments(&chars, 0, &mut out);
    proof {
        assert(chars@.skip(0) =~= chars@);
        assert forall|i: int|
            0 <= i < out@.len() implies #[trigger] out@[i]@ == parse_spec(
            split_stmts(code_str@)[i],
        ) by {
            assert(out@[0 + i]@ == parse_spec(split_stmts(chars@.skip(0))[i]));
        }
    }
    out
}

/// Tokenizes the statements of `chars` from `from` on, appending each.
fn parse_segments(chars: &Vec<char>, from: usize, out: &mut Vec<ParserToken>)
    requires
        from <= chars@.len(),
    ensures
        final(out)@.len() == old(out)@.len() + split_stmts(chars@.skip(from as int)).len(),
        final(out)@.subrange(0, old(out)@.len() as int) == old(out)@,
        forall|i: int|
            0 <= i < split_stmts(chars@.skip(from as int)).len() ==> #[trigger] final(out)@[old(
                out,
            )@.len() + i]@ == parse_spec(split_stmts(chars@.skip(from as int))[i]),
    decreases chars@.len() - from,
{
    let ghost rem = chars@.skip(from as int);
    // find the next separator
    let mut i: usize = from;
    let mut found: bool = false;
    while i < chars.len() && !found
        invariant
            from <= i <= chars@.len(),
            rem == chars@.skip(from as int),
            !found ==> forall|j: int| 0 <= j < i - from ==> (#[trigger] rem[j]) != ';',
            found ==> from <= i < chars@.len() && rem[i - from] == ';' && forall|j: int|
                0 <= j < i - from ==> (#[trigger] rem[j]) != ';',
        decreases chars@.len() - i, (if found {
            0int
        } else {
            1int
        }),
    {
        proof {
            assert(rem[i - from] == chars@[i as int]);
        }
        if chars[i] == ';' {
            found = true;
        } else {
            i = i + 1;
        }
    }
    proof {
        lemma_first_semi(rem);
        if found {
            assert(first_semi(rem) == i - from);
        } else {
            assert(first_semi(rem) == -1);
        }
    }
    if !found {
        let seg = subchars(chars, from, chars.len());
        proof {
            assert(seg@ =~= rem);
        }
        let t = parse_chars(&seg);
        let ghost out0 = out@;
        out.push(t);
        proof {
            assert(out@.subrange(0, out0.len() as int) =~= out0);
        }
    } else {
        let seg = subchars(chars, from, i);
        proof {
            assert(seg@ =~= rem.take(i - from));
        }
        let t = parse_chars(&seg);
        let ghost out0 = out@;
        out.push(t);
        let ghost mid = out@;
        proof {
            assert(mid.subrange(0, out0.len() as int) =~= out0);
        }
        parse_segments(chars, i + 1, out);
        proof {
            let tail = split_stmts(chars@.skip(i + 1));
            assert(chars@.skip(i + 1) =~= rem.skip(i - from + 1));
            assert(split_stmts(rem) == seq![rem.take(i - from)] + split_stmts(
                rem.skip(i - from + 1),
            ));
            assert(out@.subrange(0, out0.len() as int) =~= out0);
            assert forall|k: int|
                0 <= k < split_stmts(rem).len() implies #[trigger] out@[out0.len() + k]@
                == parse_spec(split_stmts(rem)[k]) by {
                if k == 0 {
                    assert(out@[out0.len() as int] == mid[out0.len() as int]);
                    assert(split_stmts(rem)[0] == rem.take(i - from));
                } else {
                    assert(out@[mid.len() + (k - 1)]@ == parse_spec(tail[k - 1]));
                    assert(split_stmts(rem)[k] == tail[k - 1]);
                }
            }
        }
    }
}

impl ParserToken {
    /// Resolves this raw tree into a typed value.
    pub fn to_lisp_token(&self) -> (r: crate::types::LispToken)
        ensures
            r@ == crate::types::resolve_spec(self@),
    {
        crate::types::LispToken::from_parser_token(self)
    }
}

// ---------------------------------------------------------------------
// Rendering a tree back to source text, and the round trip
// ---------------------------------------------------------------------
/// A character that the scan collects verbatim in any state.
pub open spec fn plain_char(c: char) -> bool {
    c != ' ' && c != '(' && c != ')' && c != '\'' && c != '\n' && c != '\t'
}

/// A symbol text the scan reads back as one symbol anywhere: non-empty,
/// of verbatim characters only.
pub open spec fn bare_text(s: Seq<char>) -> bool {
    s.len() > 0 && forall|i: int| 0 <= i < s.len() ==> plain_char(#[trigger] s[i])
}

/// A symbol text with one quoted stretch that ends it: verbatim
/// characters, then a quote, then verbatim characters and spaces, then
/// the closing quote as the last character — the closing quote is what
/// flushes such a symbol whole.
pub open spec fn mixed_text(s: Seq<char>) -> bool {
    exists|q: int|
        {
            &&& 0 <= q < s.len() - 1
            &&& #[trigger] s[q] == '\''
            &&& s[s.len() - 1] == '\''
            &&& (forall|i: int| 0 <= i < q ==> plain_char(#[trigger] s[i]))
            &&& (forall|i: int| q < i < s.len() - 1 ==> plain_char(#[trigger] s[i]) || s[i] == ' ')
        }
}

/// Well-formed inside a group: bare symbols and groups of them.  The
/// quote flush ignores the parenthesis depth, so a quoted symbol inside
/// a group escapes it; quoted symbols are therefore well-formed at the
/// top level only.
pub open spec fn wf_inner(t: TokV) -> bool
    decreases t,
{
    match t {
        TokV::Symbol(s) => bare_text(s),
        TokV::List(l) => wf_inner_list(l),
    }
}

pub open spec fn wf_inner_list(l: Seq<TokV>) -> bool
    decreases l,
{
    if l.len() == 0 {
        true
    } else {
        wf_inner_list(l.subrange(0, l.len() - 1)) && wf_inner(l[l.len() - 1])
    }
}

/// Well-formed as one top-level item: also a symbol ending in one
/// quoted stretch.
pub open spec fn wf_top(t: TokV) -> bool {
    match t {
        TokV::Symbol(s) => bare_text(s) || mixed_text(s),
        TokV::List(l) => wf_inner_list(l),
    }
}

pub proof fn lemma_wf_inner_list_elems(l: Seq<TokV>)
    ensures
        wf_inner_list(l) <==> (forall|i: int| 0 <= i < l.len() ==> wf_inner(#[trigger] l[i])),
    decreases l.len(),
{
    if l.len() > 0 {
        let sub = l.subrange(0, l.len() - 1);
        lemma_wf_inner_list_elems(sub);
        assert(forall|i: int| 0 <= i < sub.len() ==> sub[i] == #[trigger] l[i]);
    }
}

pub proof fn lemma_wf_inner_implies_top(t: TokV)
    requires
        wf_inner(t),
    ensures
        wf_top(t),
{
}

/// One item's source text: a symbol is its text; a group is its
/// children's texts, space-joined, in parentheses.
pub open spec fn render_item(t: TokV) -> Seq<char>
    decreases t,
{
    match t {
        TokV::Symbol(s) => s,
        TokV::List(l) => seq!['('] + render_items(l) + seq![')'],
    }
}

/// The items' texts joined with single spaces.
pub open spec fn render_items(l: Seq<TokV>) -> Seq<char>
    decreases l,
{
    if l.len() == 0 {
        Seq::empty()
    } else if l.len() == 1 {
        render_item(l[0])
    } else {
        render_item(l[0]) + seq![' '] + render_items(l.subrange(1, l.len() as int))
    }
}

/// The source text of a whole tokenized line: its items' texts joined,
/// without the outermost parentheses that `parse_line` never reads.
pub open spec fn render_source(t: TokV) -> Seq<char> {
    match t {
        TokV::Symbol(s) => s,
        TokV::List(l) => render_items(l),
    }
}

/// The raw item one well-formed tree scans back to.
pub open spec fn raw_of(t: TokV) -> RawItem {
    match t {
        TokV::Symbol(s) => RawItem::RawSymbol(s),
        TokV::List(l) => RawItem::RawGroup(render_items(l)),
    }
}

pub open spec fn raws_of(l: Seq<TokV>) -> Seq<RawItem>
    decreases l,
{
    if l.len() == 0 {
        Seq::empty()
    } else {
        raws_of(l.subrange(0, l.len() - 1)).push(raw_of(l[l.len() - 1]))
    }
}

pub proof fn lemma_raws_of_elems(l: Seq<TokV>)
    ensures
        raws_of(l).len() == l.len(),
        forall|i: int| 0 <= i < l.len() ==> raws_of(l)[i] == raw_of(#[trigger] l[i]),
    decreases l.len(),
{
    if l.len() > 0 {
        let sub = l.subrange(0, l.len() - 1);
        lemma_raws_of_elems(sub);
        assert forall|i: int| 0 <= i < l.len() implies raws_of(l)[i] == raw_of(#[trigger] l[i]) by {
            if i < l.len() - 1 {
                assert(raws_of(l)[i] == raws_of(sub)[i]);
                assert(sub[i] == l[i]);
            }
        }
    }
}

/// The measure of a tree and of a forest, for recursion over both.
pub open spec fn tok_size(t: TokV) -> nat
    decreases t,
{
    match t {
        TokV::Symbol(_) => 1,
        TokV::List(l) => 1 + toks_size(l),
    }
}

pub open spec fn toks_size(l: Seq<TokV>) -> nat
    decreases l,
{
    if l.len() == 0 {
        0
    } else {
        toks_size(l.subrange(0, l.len() - 1)) + tok_size(l[l.len() - 1])
    }
}

pub proof fn lemma_toks_size_front(l: Seq<TokV>)
    requires
        l.len() > 0,
    ensures
        toks_size(l) == tok_size(l[0]) + toks_size(l.subrange(1, l.len() as int)),
    decreases l.len(),
{
    let sub = l.subrange(0, l.len() - 1);
    let rest = l.subrange(1, l.len() as int);
    if l.len() == 1 {
        assert(sub =~= Seq::<TokV>::empty());
        assert(rest =~= Seq::<TokV>::empty());
    } else {
        lemma_toks_size_front(sub);
        assert(sub[0] == l[0]);
        assert(rest.subrange(0, rest.len() - 1) =~= sub.subrange(1, sub.len() as int));
        assert(rest[rest.len() - 1] == l[l.len() - 1]);
    }
}

pub proof fn lemma_toks_size_elem(l: Seq<TokV>, i: int)
    requires
        0 <= i < l.len(),
    ensures
        tok_size(l[i]) <= toks_size(l),
    decreases l.len(),
{
    lemma_toks_size_front(l);
    if i > 0 {
        let rest = l.subrange(1, l.len() as int);
        lemma_toks_size_elem(rest, i - 1);
        assert(rest[i - 1] == l[i]);
    }
}

pub proof fn lemma_scan_single(c: char, st: ScanState)
    ensures
        scan_from(seq![c], st) == scan_step(st, c),
{
    assert(seq![c].drop_first() =~= Seq::<char>::empty());
    assert(seq![c][0] == c);
    assert(scan_from(Seq::<char>::empty(), scan_step(st, c)) == scan_step(st, c));
}

/// Verbatim characters only move into the collected text, whatever the
/// scan's state.
pub proof fn lemma_scan_plain(s: Seq<char>, st: ScanState)
    requires
        forall|i: int| 0 <= i < s.len() ==> plain_char(#[trigger] s[i]),
    ensures
        scan_from(s, st) == (ScanState { pending: st.pending + s, ..st }),
    decreases s.len(),
{
    if s.len() == 0 {
        assert(st.pending + s =~= st.pending);
        assert(scan_from(s, st) == st);
        assert(st == (ScanState { pending: st.pending + s, ..st }));
    } else {
        let st2 = scan_step(st, s[0]);
        assert(st2 == (ScanState { pending: st.pending.push(s[0]), ..st }));
        assert(forall|i: int|
            0 <= i < s.drop_first().len() ==> plain_char(#[trigger] s.drop_first()[i]));
        lemma_scan_plain(s.drop_first(), st2);
        assert(st.pending.push(s[0]) + s.drop_first() =~= st.pending + s);
    }
}

/// Inside an open quote, verbatim characters and spaces both move into
/// the collected text once it is non-empty.
pub proof fn lemma_scan_quote_body(s: Seq<char>, st: ScanState)
    requires
        st.in_quote,
        st.pending.len() > 0,
        forall|i: int| 0 <= i < s.len() ==> plain_char(#[trigger] s[i]) || s[i] == ' ',
    ensures
        scan_from(s, st) == (ScanState { pending: st.pending + s, ..st }),
    decreases s.len(),
{
    if s.len() == 0 {
        assert(st.pending + s =~= st.pending);
        assert(st == (ScanState { pending: st.pending + s, ..st }));
    } else {
        let st2 = scan_step(st, s[0]);
        assert(st2 == (ScanState { pending: st.pending.push(s[0]), ..st }));
        assert(forall|i: int|
            0 <= i < s.drop_first().len() ==> plain_char(#[trigger] s.drop_first()[i])
                || s.drop_first()[i] == ' ');
        lemma_scan_quote_body(s.drop_first(), st2);
        assert(st.pending.push(s[0]) + s.drop_first() =~= st.pending + s);
    }
}

/// A symbol ending in one quoted stretch flushes itself whole at its
/// closing quote, from any parenthesis depth.
pub proof fn lemma_scan_mixed(s: Seq<char>, st: ScanState)
    requires
        mixed_text(s),
        !st.in_quote,
        st.pending.len() == 0,
    ensures
        scan_from(s, st) == (ScanState {
            pending: Seq::empty(),
            items: st.items.push(RawItem::RawSymbol(s)),
            ..st
        }),
{
    let q = choose|q: int|
        {
            &&& 0 <= q < s.len() - 1
            &&& #[trigger] s[q] == '\''
            &&& s[s.len() - 1] == '\''
            &&& (forall|i: int| 0 <= i < q ==> plain_char(#[trigger] s[i]))
            &&& (forall|i: int| q < i < s.len() - 1 ==> plain_char(#[trigger] s[i]) || s[i] == ' ')
        };
    let pre = s.take(q);
    let mid = s.subrange(q + 1, s.len() - 1);
    assert(s =~= pre + (seq!['\''] + (mid + seq!['\''])));
    lemma_scan_from_concat(pre, seq!['\''] + (mid + seq!['\'']), st);
    assert(forall|i: int| 0 <= i < pre.len() ==> plain_char(#[trigger] pre[i]));
    lemma_scan_plain(pre, st);
    let st0 = scan_from(pre, st);
    assert(st.pending + pre =~= pre);
    assert(st0 == (ScanState { pending: pre, ..st }));
    let st1 = scan_step(st0, '\'');
    assert(st1 == (ScanState { in_quote: true, pending: pre.push('\''), ..st }));
    lemma_scan_from_concat(seq!['\''], mid + seq!['\''], st0);
    lemma_scan_single('\'', st0);
    assert(scan_from(seq!['\''], st0) == st1);
    lemma_scan_from_concat(mid, seq!['\''], st1);
    assert(forall|i: int| 0 <= i < mid.len() ==> plain_char(#[trigger] mid[i]) || mid[i] == ' ');
    lemma_scan_quote_body(mid, st1);
    let st2 = scan_from(mid, st1);
    assert(st2.in_quote && st2.pending == pre.push('\'') + mid);
    lemma_scan_single('\'', st2);
    assert(scan_from(seq!['\''], st2) == scan_step(st2, '\''));
    assert(st2.pending.push('\'') =~= s);
    assert(scan_step(st2, '\'') == (ScanState {
        in_quote: false,
        pending: Seq::empty(),
        items: st.items.push(RawItem::RawSymbol(s)),
        ..st
    }));
}

/// Inside a group, a well-formed item's text is collected verbatim.
pub proof fn lemma_scan_inner_item(t: TokV, st: ScanState)
    requires
        wf_inner(t),
        st.depth >= 1,
        !st.in_quote,
    ensures
        scan_from(render_item(t), st) == (ScanState { pending: st.pending + render_item(t), ..st }),
    decreases tok_size(t), 0nat,
{
    match t {
        TokV::Symbol(s) => {
            lemma_scan_plain(s, st);
        },
        TokV::List(l) => {
            let inner = render_items(l);
            let st1 = scan_step(st, '(');
            assert(st1 == (ScanState { depth: st.depth + 1, pending: st.pending.push('('), ..st }));
            assert(render_item(t) =~= seq!['('] + (inner + seq![')']));
            lemma_scan_from_concat(seq!['('], inner + seq![')'], st);
            lemma_scan_single('(', st);
            assert(scan_from(seq!['('], st) == st1);
            lemma_scan_from_concat(inner, seq![')'], st1);
            lemma_scan_inner_items(l, st1);
            let st2 = scan_from(inner, st1);
            assert(st2 == (ScanState { pending: st.pending.push('(') + inner, ..st1 }));
            lemma_scan_single(')', st2);
            assert(scan_from(seq![')'], st2) == scan_step(st2, ')'));
            assert(st2.depth == st.depth + 1 >= 2);
            assert(st2.pending.push(')') =~= st.pending.push('(') + inner + seq![')']);
            assert(scan_step(st2, ')') == (ScanState {
                depth: st.depth,
                pending: st.pending.push('(') + inner + seq![')'],
                ..st
            }));
            assert(st.pending.push('(') + inner + seq![')'] =~= st.pending + render_item(t));
        },
    }
}

/// Inside a group, a well-formed item list's joined text is collected
/// verbatim.
pub proof fn lemma_scan_inner_items(l: Seq<TokV>, st: ScanState)
    requires
        wf_inner_list(l),
        st.depth >= 1,
        !st.in_quote,
    ensures
        scan_from(render_items(l), st) == (ScanState {
            pending: st.pending + render_items(l),
            ..st
        }),
    decreases toks_size(l), l.len(),
{
    lemma_wf_inner_list_elems(l);
    if l.len() == 0 {
        assert(st.pending + render_items(l) =~= st.pending);
        assert(st == (ScanState { pending: st.pending + render_items(l), ..st }));
    } else if l.len() == 1 {
        lemma_toks_size_elem(l, 0);
        lemma_scan_inner_item(l[0], st);
    } else {
        let rest = l.subrange(1, l.len() as int);
        let head_text = render_item(l[0]);
        let rest_text = render_items(rest);
        assert(render_items(l) == head_text + seq![' '] + rest_text);
        lemma_toks_size_elem(l, 0);
        lemma_scan_inner_item(l[0], st);
        let st1 = scan_from(head_text, st);
        assert(render_items(l) =~= head_text + (seq![' '] + rest_text));
        lemma_scan_from_concat(head_text, seq![' '] + rest_text, st);
        lemma_scan_from_concat(seq![' '], rest_text, st1);
        lemma_scan_single(' ', st1);
        assert(scan_from(seq![' '], st1) == scan_step(st1, ' '));
        lemma_render_item_nonempty(l[0]);
        assert(st1.pending.len() > 0);
        let st2 = scan_step(st1, ' ');
        assert(st2 == (ScanState { pending: st1.pending.push(' '), ..st1 }));
        assert(wf_inner_list(rest)) by {
            lemma_wf_inner_list_elems(rest);
            assert(forall|i: int| 0 <= i < rest.len() ==> rest[i] == #[trigger] l[i + 1]);
        }
        lemma_toks_size_front(l);
        lemma_tok_size_pos(l[0]);
        lemma_scan_inner_items(rest, st2);
        assert((st.pending + head_text).push(' ') + rest_text =~= st.pending + render_items(l));
    }
}

pub proof fn lemma_tok_size_pos(t: TokV)
    ensures
        tok_size(t) >= 1,
{
}

pub proof fn lemma_render_item_nonempty(t: TokV)
    requires
        wf_inner(t) || wf_top(t),
    ensures
        render_item(t).len() > 0,
{
}

/// A top-level item that the end-of-input flush still has to emit.
pub open spec fn is_bare_sym(t: TokV) -> bool {
    match t {
        TokV::Symbol(s) => bare_text(s),
        TokV::List(_) => false,
    }
}

/// Scanning the joined texts of well-formed top-level items from a
/// neutral state emits exactly their raw items, a trailing bare symbol
/// excepted: its text stays pending for the end-of-input flush.
pub proof fn lemma_scan_top_items(l: Seq<TokV>, st: ScanState)
    requires
        forall|i: int| 0 <= i < l.len() ==> wf_top(#[trigger] l[i]),
        st.depth == 0,
        !st.in_quote,
        st.pending.len() == 0,
    ensures
        l.len() == 0 ==> scan_from(render_items(l), st) == st,
        l.len() > 0 && is_bare_sym(l[l.len() - 1]) ==> scan_from(render_items(l), st)
            == (ScanState {
            pending: l[l.len() - 1]->Symbol_0,
            items: st.items + raws_of(l.subrange(0, l.len() - 1)),
            ..st
        }),
        l.len() > 0 && !is_bare_sym(l[l.len() - 1]) ==> scan_from(render_items(l), st)
            == (ScanState { pending: Seq::empty(), items: st.items + raws_of(l), ..st }),
    decreases l.len(),
{
    if l.len() == 0 {
        assert(render_items(l) =~= Seq::<char>::empty());
        assert(scan_from(Seq::<char>::empty(), st) == st);
    } else {
        let head = l[0];
        let head_text = render_item(head);
        // state after the head item's text
        let a = scan_from(head_text, st);
        match head {
            TokV::Symbol(s) => {
                if bare_text(s) {
                    lemma_scan_plain(s, st);
                    assert(st.pending + s =~= s);
                    assert(a == (ScanState { pending: s, ..st }));
                } else {
                    lemma_scan_mixed(s, st);
                    assert(a == (ScanState {
                        pending: Seq::empty(),
                        items: st.items.push(RawItem::RawSymbol(s)),
                        ..st
                    }));
                }
            },
            TokV::List(children) => {
                let inner = render_items(children);
                let st1 = scan_step(st, '(');
                assert(st1 == (ScanState { depth: 1, ..st }));
                assert(head_text =~= seq!['('] + (inner + seq![')']));
                lemma_scan_from_concat(seq!['('], inner + seq![')'], st);
                lemma_scan_single('(', st);
                lemma_scan_from_concat(inner, seq![')'], st1);
                lemma_scan_inner_items(children, st1);
                let st2 = scan_from(inner, st1);
                assert(st.pending + inner =~= inner);
                assert(st2 == (ScanState { depth: 1, pending: inner, ..st }));
                lemma_scan_single(')', st2);
                assert(scan_step(st2, ')') == (ScanState {
                    depth: 0,
                    pending: Seq::empty(),
                    items: st.items.push(RawItem::RawGroup(inner)),
                    ..st
                }));
                assert(a == (ScanState {
                    pending: Seq::empty(),
                    items: st.items.push(RawItem::RawGroup(inner)),
                    ..st
                }));
            },
        }
        if l.len() == 1 {
            assert(render_items(l) == head_text);
            if is_bare_sym(head) {
                assert(raws_of(l.subrange(0, 0)) =~= Seq::<RawItem>::empty());
                assert(st.items + raws_of(l.subrange(0, 0)) =~= st.items);
            } else {
                assert(l.subrange(0, 0) =~= Seq::<TokV>::empty());
                assert(raws_of(l) == raws_of(l.subrange(0, 0)).push(raw_of(head)));
                assert(st.items + raws_of(l) =~= st.items.push(raw_of(head)));
            }
        } else {
            let rest = l.subrange(1, l.len() as int);
            let rest_text = render_items(rest);
            assert(render_items(l) == head_text + seq![' '] + rest_text);
            assert(render_items(l) =~= head_text + (seq![' '] + rest_text));
            lemma_scan_from_concat(head_text, seq![' '] + rest_text, st);
            lemma_scan_from_concat(seq![' '], rest_text, a);
            lemma_scan_single(' ', a);
            // after the separating space the state is neutral again,
            // with the head item emitted
            let b = scan_step(a, ' ');
            let neutral = ScanState {
                depth: st.depth,
                in_quote: st.in_quote,
                pending: Seq::empty(),
                items: st.items.push(raw_of(head)),
            };
            assert(head_text.len() > 0) by {
                lemma_render_item_nonempty(head);
            }
            assert(b == neutral);
            assert(forall|i: int|
                0 <= i < rest.len() ==> wf_top(#[trigger] rest[i]) && rest[i] == l[i + 1]);
            lemma_scan_top_items(rest, neutral);
            lemma_raws_of_elems(l);
            lemma_raws_of_elems(rest);
            if is_bare_sym(l[l.len() - 1]) {
                let lf = l.subrange(0, l.len() - 1);
                let rf = rest.subrange(0, rest.len() - 1);
                lemma_raws_of_elems(lf);
                lemma_raws_of_elems(rf);
                assert forall|i: int|
                    0 <= i < lf.len() implies raws_of(lf)[i] == (seq![raw_of(head)] + raws_of(
                    rf,
                ))[i] by {
                    assert(raws_of(lf)[i] == raw_of(lf[i]));
                    if i > 0 {
                        assert(rf[i - 1] == rest[i - 1]);
                        assert(rest[i - 1] == l[i]);
                        assert(lf[i] == l[i]);
                        assert(raws_of(rf)[i - 1] == raw_of(rf[i - 1]));
                    } else {
                        assert(lf[0] == head);
                    }
                }
                assert(raws_of(lf) =~= seq![raw_of(head)] + raws_of(rf));
                assert(neutral.items + raws_of(rf) =~= st.items + raws_of(lf));
            } else {
                assert forall|i: int|
                    0 <= i < l.len() implies raws_of(l)[i] == (seq![raw_of(head)] + raws_of(
                    rest,
                ))[i] by {
                    assert(raws_of(l)[i] == raw_of(l[i]));
                    if i > 0 {
                        assert(rest[i - 1] == l[i]);
                        assert(raws_of(rest)[i - 1] == raw_of(rest[i - 1]));
                    }
                }
                assert(raws_of(l) =~= seq![raw_of(head)] + raws_of(rest));
                assert(neutral.items + raws_of(rest) =~= st.items + raws_of(l));
            }
        }
    }
}

/// Each item's text is no longer than the whole joined text.
pub proof fn lemma_render_item_within(l: Seq<TokV>, i: int)
    requires
        0 <= i < l.len(),
    ensures
        render_item(l[i]).len() <= render_items(l).len(),
    decreases l.len(),
{
    if l.len() > 1 {
        if i == 0 {
        } else {
            let rest = l.subrange(1, l.len() as int);
            lemma_render_item_within(rest, i - 1);
            assert(rest[i - 1] == l[i]);
        }
    }
}

/// Round trip: a raw tree of well-formed items — at the top level
/// bare symbols and symbols ending in one quoted stretch, further down
/// bare symbols and groups of them — rendered back to source text and
/// tokenized again is the same tree.  (A quote inside a group is out:
/// the quote flush ignores the parenthesis depth, so a quoted symbol
/// escapes its group.)
pub proof fn lemma_parse_render_round_trip(items: Seq<TokV>)
    requires
        forall|i: int| 0 <= i < items.len() ==> wf_top(#[trigger] items[i]),
    ensures
        parse_spec(render_items(items)) == TokV::List(items),
    decreases toks_size(items),
{
    let s = render_items(items);
    lemma_scan_top_items(items, scan_init());
    let fin = scan_from(s, scan_init());
    lemma_raws_of_elems(items);
    // the scan's items, the end-of-input flush included, are the raws
    if items.len() == 0 {
        assert(scan_items(s) =~= raws_of(items));
    } else if is_bare_sym(items[items.len() - 1]) {
        let front = items.subrange(0, items.len() - 1);
        assert(fin.pending == items[items.len() - 1]->Symbol_0);
        assert(fin.pending.len() > 0);
        assert(fin.items =~= raws_of(front));
        assert(raws_of(items) == raws_of(front).push(raw_of(items[items.len() - 1])));
        assert(scan_items(s) =~= raws_of(items));
    } else {
        assert(fin.pending.len() == 0);
        assert(scan_items(s) =~= raws_of(items));
    }
    lemma_parse_items_elems(s.len(), raws_of(items));
    assert forall|j: int|
        0 <= j < items.len() implies parse_items_spec(s.len(), raws_of(items))[j] == items[j] by {
        match items[j] {
            TokV::Symbol(text) => {
                assert(raws_of(items)[j] == RawItem::RawSymbol(text));
            },
            TokV::List(children) => {
                let g = render_items(children);
                assert(raws_of(items)[j] == RawItem::RawGroup(g));
                lemma_render_item_within(items, j);
                assert(render_item(items[j]).len() == g.len() + 2);
                assert(g.len() < s.len());
                lemma_toks_size_elem(items, j);
                lemma_wf_inner_list_elems(children);
                assert forall|i: int|
                    0 <= i < children.len() implies wf_top(#[trigger] children[i]) by {
                    lemma_wf_inner_implies_top(children[i]);
                }
                lemma_parse_render_round_trip(children);
                assert(parse_item_spec(s.len(), raws_of(items)[j]) == parse_spec(g));
            },
        }
    }
    assert(parse_items_spec(s.len(), raws_of(items)) =~= items);
}

impl ParserToken {
    /// The source text this tree renders to: its items joined with
    /// spaces, groups in parentheses, and no outermost parentheses —
    /// the form `parse_line` reads.
    pub fn render(&self) -> (r: String)
        ensures
            r@ == render_source(self@),
    {
        match self {
            ParserToken::Symbol(s) => s.clone(),
            ParserToken::List(l) => {
                let chars = render_items_chars(l, Ghost(*self));
                string_from_chars(&chars)
            },
        }
    }
}

/// `render_items`, restated for appending one item at a time.
proof fn lemma_render_items_snoc(l: Seq<TokV>)
    requires
        l.len() > 0,
    ensures
        render_items(l) == if l.len() == 1 {
            render_item(l[0])
        } else {
            render_items(l.subrange(0, l.len() - 1)) + seq![' '] + render_item(l[l.len() - 1])
        },
    decreases l.len(),
{
    if l.len() > 1 {
        let rest = l.subrange(1, l.len() as int);
        lemma_render_items_snoc(rest);
        let front = l.subrange(0, l.len() - 1);
        assert(rest[rest.len() - 1] == l[l.len() - 1]);
        if l.len() == 2 {
            assert(front =~= seq![l[0]]);
            assert(render_items(front) == render_item(l[0]));
            assert(rest =~= seq![l[1]]);
            assert(render_items(rest) == render_item(l[1]));
            assert(render_items(l) =~= render_items(front) + seq![' '] + render_item(
                l[l.len() - 1],
            ));
        } else {
            assert(front.subrange(1, front.len() as int) =~= rest.subrange(0, rest.len() - 1));
            assert(front[0] == l[0]);
            assert(render_items(front) == render_item(l[0]) + seq![' '] + render_items(
                front.subrange(1, front.len() as int),
            ));
            assert(render_items(l) =~= render_items(front) + seq![' '] + render_item(
                l[l.len() - 1],
            ));
        }
    }
}

fn render_item_chars(t: &ParserToken) -> (r: Vec<char>)
    ensures
        r@ == render_item(t@),
    decreases t, 1nat,
{
    match t {
        ParserToken::Symbol(s) => chars_of(s.as_str()),
        ParserToken::List(l) => {
            let mut out: Vec<char> = vec!['('];
            let inner = render_items_chars(l, Ghost(*t));
            crate::text::push_chars(&mut out, &inner);
            out.push(')');
            proof {
                assert(out@ =~= seq!['('] + render_items(toks_view(l@)) + seq![')']);
            }
            out
        },
    }
}

fn render_items_chars(l: &Vec<ParserToken>, parent: Ghost<ParserToken>) -> (r: Vec<char>)
    requires
        parent@ == ParserToken::List(*l),
    ensures
        r@ == render_items(toks_view(l@)),
    decreases parent@, 0nat,
{
    let ghost lv = toks_view(l@);
    proof {
        lemma_toks_view_elems(l@);
    }
    let mut out: Vec<char> = Vec::new();
    let mut j: usize = 0;
    while j < l.len()
        invariant
            parent@ == ParserToken::List(*l),
            0 <= j <= l@.len(),
            lv == toks_view(l@),
            lv.len() == l@.len(),
            forall|i: int| 0 <= i < l@.len() ==> lv[i] == #[trigger] l@[i]@,
            out@ == render_items(lv.take(j as int)),
        decreases l@.len() - j,
    {
        if j > 0 {
            out.push(' ');
        }
        proof {
            assert(decreases_to!(parent@ => parent@->List_0@[j as int]));
        }
        let piece = render_item_chars(&l[j]);
        crate::text::push_chars(&mut out, &piece);
        j = j + 1;
        proof {
            let tk = lv.take(j as int);
            assert(tk.subrange(0, tk.len() - 1) =~= lv.take(j - 1));
            assert(tk[tk.len() - 1] == lv[j - 1]);
            lemma_render_items_snoc(tk);
            if j == 1 {
                assert(out@ =~= render_items(tk));
            } else {
                assert(out@ =~= render_items(lv.take(j - 1)) + seq![' '] + render_item(lv[j - 1]));
            }
        }
    }
    proof {
        assert(lv.take(lv.len() as int) =~= lv);
    }
    out
}


/// The inspection form of a raw tree: one line per symbol, nested
/// groups between `.<---` and `.--->` markers, two dots more indent per
/// level.  For human eyes; the format carries no stability promise.
pub open spec fn pretty_tok(t: TokV, ind: Seq<char>) -> Seq<char>
    decreases t,
{
    match t {
        TokV::Symbol(s) => ind + seq!['|', '-', ' '] + s + seq!['\n'],
        TokV::List(l) => ind + seq!['.', '<', '-', '-', '-', '\n'] + pretty_toks(
            l,
            seq!['.', '.'] + ind,
        ) + ind + seq!['.', '-', '-', '-', '>', '\n'],
    }
}

pub open spec fn pretty_toks(l: Seq<TokV>, ind: Seq<char>) -> Seq<char>
    decreases l,
{
    if l.len() == 0 {
        Seq::empty()
    } else {
        pretty_toks(l.subrange(0, l.len() - 1), ind) + pretty_tok(l[l.len() - 1], ind)
    }
}

impl ParserToken {
    /// The indented, line-per-token inspection form, as `pretty_tok`
    /// states it.
    pub fn pretty_string(&self, indent: &str) -> (r: String)
        ensures
            r@ == pretty_tok(self@, indent@),
    {
        let ind = chars_of(indent);
        let chars = pretty_tok_chars(self, &ind);
        string_from_chars(&chars)
    }
}

fn pretty_tok_chars(t: &ParserToken, ind: &Vec<char>) -> (r: Vec<char>)
    ensures
        r@ == pretty_tok(t@, ind@),
    decreases t, 1nat,
{
    match t {
        ParserToken::Symbol(s) => {
            let mut out: Vec<char> = Vec::new();
            crate::text::push_chars(&mut out, ind);
            out.push('|');
            out.push('-');
            out.push(' ');
            let text = chars_of(s.as_str());
            crate::text::push_chars(&mut out, &text);
            out.push('\n');
            proof {
                assert(out@ =~= ind@ + seq!['|', '-', ' '] + s@ + seq!['\n']);
            }
            out
        },
        ParserToken::List(l) => {
            let mut deeper: Vec<char> = vec!['.', '.'];
            crate::text::push_chars(&mut deeper, ind);
            let mut out: Vec<char> = Vec::new();
            crate::text::push_chars(&mut out, ind);
            out.push('.');
            out.push('<');
            out.push('-');
            out.push('-');
            out.push('-');
            out.push('\n');
            let ghost head = ind@ + seq!['.', '<', '-', '-', '-', '\n'];
            proof {
                assert(out@ =~= head);
                assert(deeper@ =~= seq!['.', '.'] + ind@);
            }
            let body = pretty_toks_chars(l, &deeper, Ghost(*t));
            crate::text::push_chars(&mut out, &body);
            crate::text::push_chars(&mut out, ind);
            out.push('.');
            out.push('-');
            out.push('-');
            out.push('-');
            out.push('>');
            out.push('\n');
            proof {
                assert(out@ =~= ind@ + seq!['.', '<', '-', '-', '-', '\n'] + pretty_toks(
                    toks_view(l@),
                    seq!['.', '.'] + ind@,
                ) + ind@ + seq!['.', '-', '-', '-', '>', '\n']);
            }
            out
        },
    }
}

fn pretty_toks_chars(l: &Vec<ParserToken>, ind: &Vec<char>, parent: Ghost<ParserToken>) -> (r: Vec<
    char,
>)
    requires
        parent@ == ParserToken::List(*l),
    ensures
        r@ == pretty_toks(toks_view(l@), ind@),
    decreases parent@, 0nat,
{
    let ghost lv = toks_view(l@);
    proof {
        lemma_toks_view_elems(l@);
    }
    let mut out: Vec<char> = Vec::new();
    let mut j: usize = 0;
    while j < l.len()
        invariant
            parent@ == ParserToken::List(*l),
            0 <= j <= l@.len(),
            lv == toks_view(l@),
            lv.len() == l@.len(),
            forall|i: int| 0 <= i < l@.len() ==> lv[i] == #[trigger] l@[i]@,
            out@ == pretty_toks(lv.take(j as int), ind@),
        decreases l@.len() - j,
    {
        proof {
            assert(decreases_to!(parent@ => parent@->List_0@[j as int]));
        }
        let piece = pretty_tok_chars(&l[j], ind);
        crate::text::push_chars(&mut out, &piece);
        j = j + 1;
        proof {
            let tk = lv.take(j as int);
            assert(tk.subrange(0, tk.len() - 1) =~= lv.take(j - 1));
            assert(tk[tk.len() - 1] == lv[j - 1]);
        }
    }
    proof {
        assert(lv.take(lv.len() as int) =~= lv);
    }
    out
}

} // verus!

