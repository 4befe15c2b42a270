//! The single-pass tokenizer: one token per value, container opening and
//! container close, plus a terminating end marker.
use vstd::prelude::*;

use crate::error::{BdecodeError, ErrorView};
use crate::limits::{MAX_HEADER_SIZE, MAX_NEXT_ITEM};
use crate::scan::{check_integer, integer_spec, is_digit, parse_uint, run_end, uint_spec};
use crate::token::{BdecodeToken, BdecodeTokenType, TokenView};

verus! {

/// An open container: the index of its opening token, and for a dictionary
/// whether the next item is a value (else a key).
pub struct Frame {
    pub token: nat,
    pub expecting_value: bool,
}

/// Where the scan stands: the cursor, the tokens so far, the open
/// containers, and the remaining token budget.
pub struct ScanState {
    pub pos: nat,
    pub tokens: Seq<TokenView>,
    pub stack: Seq<Frame>,
    pub budget: int,
}

/// A token as a value.
pub open spec fn tv(offset: nat, kind: BdecodeTokenType, next_item: nat, header_size: nat) -> TokenView {
    TokenView { offset, kind, next_item, header_size }
}

/// The views of a sequence of tokens.
pub open spec fn views(t: Seq<BdecodeToken>) -> Seq<TokenView> {
    t.map_values(|x: BdecodeToken| x@)
}

/// The innermost open container is a dictionary.
pub open spec fn top_is_dict(s: ScanState) -> bool {
    s.stack.len() > 0 && s.tokens[s.stack.last().token as int].kind == BdecodeTokenType::Dict
}

/// A new item was added to the innermost open container: a dictionary now
/// expects the other of key and value.
pub open spec fn after_item(s: ScanState) -> Seq<Frame> {
    if top_is_dict(s) {
        s.stack.update(
            s.stack.len() - 1,
            Frame { token: s.stack.last().token, expecting_value: !s.stack.last().expecting_value },
        )
    } else {
        s.stack
    }
}

/// One token read at the cursor. When the token budget runs out, the error
/// carries the number of tokens read, which is the configured token limit.
#[verifier::opaque]
pub open spec fn step(buf: Seq<u8>, depth_limit: nat, s: ScanState) -> Result<ScanState, ErrorView> {
    let p = s.pos as int;
    let budget = s.budget - 1;
    if s.stack.len() >= depth_limit {
        Err(ErrorView::DepthExceeded(depth_limit as int))
    } else if budget < 0 {
        Err(ErrorView::LimitExceeded(s.tokens.len() as int))
    } else if p >= buf.len() {
        Err(ErrorView::UnexpectedEof(p))
    } else if top_is_dict(s) && !s.stack.last().expecting_value && !is_digit(buf[p]) && buf[p]
        != 101 {
        Err(ErrorView::ExpectedDigit(p))
    } else if buf[p] == 100 || buf[p] == 108 {
        let kind = if buf[p] == 100 {
            BdecodeTokenType::Dict
        } else {
            BdecodeTokenType::List
        };
        Ok(
            ScanState {
                pos: s.pos + 1,
                tokens: s.tokens.push(tv(s.pos, kind, 0, 0)),
                stack: after_item(s).push(Frame { token: s.tokens.len(), expecting_value: false }),
                budget,
            },
        )
    } else if buf[p] == 105 {
        match integer_spec(buf, p + 1) {
            Err(e) => Err(e),
            Ok(q) => Ok(
                ScanState {
                    pos: (q + 1) as nat,
                    tokens: s.tokens.push(tv(s.pos, BdecodeTokenType::Int, 1, 0)),
                    stack: after_item(s),
                    budget,
                },
            ),
        }
    } else if buf[p] == 101 {
        if s.stack.len() == 0 {
            Err(ErrorView::UnexpectedEof(p))
        } else if top_is_dict(s) && s.stack.last().expecting_value {
            Err(ErrorView::ExpectedValue(p))
        } else {
            let top = s.stack.last().token as int;
            let closed = s.tokens.push(tv(s.pos, BdecodeTokenType::End, 1, 0));
            let next = closed.len() - top;
            if next > MAX_NEXT_ITEM {
                Err(ErrorView::LimitExceeded(MAX_NEXT_ITEM as int))
            } else {
                Ok(
                    ScanState {
                        pos: s.pos + 1,
                        tokens: closed.update(
                            top,
                            TokenView { next_item: next as nat, ..closed[top] },
                        ),
                        stack: s.stack.drop_last(),
                        budget,
                    },
                )
            }
        }
    } else if !is_digit(buf[p]) {
        Err(ErrorView::ExpectedDigit(p))
    } else if p + 1 >= buf.len() {
        Err(ErrorView::UnexpectedEof(p + 1))
    } else {
        match uint_spec(buf, p, 58, 0) {
            Err(ErrorView::ExpectedDigit(q)) => Err(ErrorView::ExpectedColon(q)),
            Err(e) => Err(e),
            Ok((q, len)) => {
                if q == buf.len() {
                    Err(ErrorView::ExpectedColon(p))
                } else if len > buf.len() - q - 1 {
                    Err(ErrorView::UnexpectedEof(q))
                } else if q - p > MAX_HEADER_SIZE {
                    Err(ErrorView::LimitExceeded(MAX_HEADER_SIZE as int))
                } else {
                    Ok(
                        ScanState {
                            pos: (q + 1 + len) as nat,
                            tokens: s.tokens.push(
                                tv(s.pos, BdecodeTokenType::Str, 1, (q - p) as nat),
                            ),
                            stack: after_item(s),
                            budget,
                        },
                    )
                }
            },
        }
    }
}

/// A successful step moves the cursor forward and stays within the buffer.
pub proof fn lemma_step_advances(buf: Seq<u8>, depth_limit: nat, s: ScanState)
    requires
        step(buf, depth_limit, s) is Ok,
    ensures
        s.pos < step(buf, depth_limit, s)->Ok_0.pos <= buf.len(),
{
    reveal(step);
    let p = s.pos as int;
    if buf[p] == 105 && !(top_is_dict(s) && !s.stack.last().expecting_value) {
        let d = if buf[p + 1] == 45 { p + 2 } else { p + 1 };
        crate::scan::lemma_run_end(buf, d, 101);
    } else if buf[p] != 100 && buf[p] != 108 && buf[p] != 101 && buf[p] != 105 {
        crate::scan::lemma_run_end(buf, p, 58);
        crate::scan::lemma_run_end(buf, p + 1, 58);
        let q = run_end(buf, p, 58);
        assert(q == run_end(buf, p + 1, 58));
        crate::scan::lemma_dec_monotone(0, buf.subrange(p, q), q - p);
        assert(buf.subrange(p, q).subrange(0, q - p) =~= buf.subrange(p, q));
    }
}

/// The scan from state `s` to its end: the tokens, closed by a terminator
/// at the cursor once no container is open, or the first error.
pub open spec fn run(buf: Seq<u8>, depth_limit: nat, s: ScanState) -> Result<
    Seq<TokenView>,
    ErrorView,
>
    decreases buf.len() - s.pos,
{
    match step(buf, depth_limit, s) {
        Err(e) => Err(e),
        Ok(s2) => {
            if s2.stack.len() == 0 {
                Ok(s2.tokens.push(tv(s2.pos, BdecodeTokenType::End, 1, 0)))
            } else {
                proof {
                    lemma_step_advances(buf, depth_limit, s);
                }
                run(buf, depth_limit, s2)
            }
        },
    }
}

/// The tokens of a buffer, or why it is refused.
pub open spec fn tokenize_spec(buf: Seq<u8>, depth_limit: nat, token_limit: int) -> Result<
    Seq<TokenView>,
    ErrorView,
> {
    if buf.len() > crate::limits::BUFFER_MAX_OFFSET {
        Err(ErrorView::LimitExceeded(buf.len() as int))
    } else if buf.len() == 0 {
        Err(ErrorView::UnexpectedEof(0))
    } else {
        run(buf, depth_limit, ScanState { pos: 0, tokens: seq![], stack: seq![], budget: token_limit })
    }
}

/// An open container during the scan.
struct StackFrame {
    token: u32,
    state: bool,
}

impl View for StackFrame {
    type V = Frame;

    closed spec fn view(&self) -> Frame {
        Frame { token: self.token as nat, expecting_value: self.state }
    }
}

spec fn frames(st: Seq<StackFrame>) -> Seq<Frame> {
    st.map_values(|f: StackFrame| f@)
}

spec fn state_of(pos: usize, tokens: Seq<BdecodeToken>, stack: Seq<StackFrame>, budget: i64) -> ScanState {
    ScanState { pos: pos as nat, tokens: views(tokens), stack: frames(stack), budget: budget as int }
}

/// Records a new item in the innermost open container.
fn note_item(stack: &mut Vec<StackFrame>, tokens: &Vec<BdecodeToken>)
    requires
        forall|k: int| 0 <= k < old(stack)@.len() ==> (#[trigger] old(stack)@[k]).token < tokens@.len(),
    ensures
        frames(final(stack)@) == after_item(state_of(0, tokens@, old(stack)@, 0)),
        final(stack)@.len() == old(stack)@.len(),
        forall|k: int| 0 <= k < final(stack)@.len() ==> (#[trigger] final(stack)@[k]).token == old(stack)@[k].token,
{
    let n = stack.len();
    if n > 0 {
        let top = stack[n - 1].token as usize;
        if tokens[top].node_type() == BdecodeTokenType::Dict {
            let f = StackFrame { token: stack[n - 1].token, state: !stack[n - 1].state };
            stack.set(n - 1, f);
            assert(frames(stack@) =~= after_item(state_of(0, tokens@, old(stack)@, 0)));
            return;
        }
    }
    assert(frames(stack@) =~= after_item(state_of(0, tokens@, old(stack)@, 0)));
}

/// Tokenizes `buffer`: at most `depth_limit` open containers and
/// `token_limit` tokens before the terminator.
pub fn tokenize(buffer: &[u8], depth_limit: usize, token_limit: i32) -> (r: Result<
    Vec<BdecodeToken>,
    BdecodeError,
>)
    ensures
        match tokenize_spec(buffer@, depth_limit as nat, token_limit as int) {
            Ok(t) => r is Ok && views(r->Ok_0@) == t,
            Err(e) => r is Err && r->Err_0@ == e,
        },
        r is Ok ==> crate::structure::tokens_wf(buffer@, views(r->Ok_0@)),
        r is Ok ==> r->Ok_0@.len() <= buffer@.len() + 1,
{
    let end = buffer.len();
    if end > crate::limits::BUFFER_MAX_OFFSET {
        return Err(BdecodeError::LimitExceeded(end));
    }
    if end == 0 {
        return Err(BdecodeError::UnexpectedEof(0));
    }
    let mut tokens: Vec<BdecodeToken> = Vec::new();
    let mut stack: Vec<StackFrame> = Vec::new();
    let mut start: usize = 0;
    let mut budget: i64 = token_limit as i64;
    let ghost buf = buffer@;
    let ghost dl = depth_limit as nat;
    assert(views(tokens@) =~= seq![]);
    assert(frames(stack@) =~= seq![]);
    loop
        invariant_except_break
            tokenize_spec(buf, dl, token_limit as int) == run(buf, dl, state_of(start, tokens@, stack@, budget)),
        invariant
            buf == buffer@,
            dl == depth_limit as nat,
            end == buf.len(),
            0 < end <= crate::limits::BUFFER_MAX_OFFSET,
            start <= end,
            tokens@.len() <= start,
            token_limit as int - start <= budget <= token_limit as int,
            forall|k: int| 0 <= k < stack@.len() ==> (#[trigger] stack@[k]).token < tokens@.len(),
        ensures
            tokenize_spec(buf, dl, token_limit as int) == Ok::<Seq<TokenView>, ErrorView>(
                views(tokens@).push(tv(start as nat, BdecodeTokenType::End, 1, 0)),
            ),
        decreases end - start,
    {
        let ghost s = state_of(start, tokens@, stack@, budget);
        let ghost t0 = tokens@;
        proof {
            reveal(step);
        }
        if stack.len() >= depth_limit {
            return Err(BdecodeError::DepthExceeded(depth_limit));
        }
        budget = budget - 1;
        if budget < 0 {
            return Err(BdecodeError::LimitExceeded(tokens.len()));
        }
        if start >= end {
            return Err(BdecodeError::UnexpectedEof(start));
        }
        let t = buffer[start];
        let n = stack.len();
        let top_dict = n > 0 && tokens[stack[n - 1].token as usize].node_type() == BdecodeTokenType::Dict;
        assert(top_dict == top_is_dict(s));
        if top_dict && !stack[n - 1].state && !(48u8 <= t && t <= 57u8) && t != 101u8 {
            return Err(BdecodeError::ExpectedDigit(start));
        }
        if t == 100u8 || t == 108u8 {
            let idx = tokens.len() as u32;
            note_item(&mut stack, &tokens);
            stack.push(StackFrame { token: idx, state: false });
            if t == 100u8 {
                tokens.push(BdecodeToken::new_dict(start as u32, 0));
            } else {
                tokens.push(BdecodeToken::new_list(start as u32, 0));
            }
            proof {
                let kind = if t == 100u8 { BdecodeTokenType::Dict } else { BdecodeTokenType::List };
                assert(views(tokens@) =~= views(t0).push(tv(start as nat, kind, 0, 0)));
                assert(frames(stack@) =~= after_item(s).push(Frame { token: t0.len(), expecting_value: false }));
            }
            start += 1;
        } else if t == 105u8 {
            let int_start = start;
            match check_integer(buffer, start + 1) {
                Err(e) => {
                    return Err(e);
                },
                Ok(q) => {
                    note_item(&mut stack, &tokens);
                    tokens.push(BdecodeToken::new_int(int_start as u32));
                    assert(views(tokens@) =~= views(t0).push(tv(int_start as nat, BdecodeTokenType::Int, 1, 0)));
                    assert(q < end);
                    start = q + 1;
                },
            }
        } else if t == 101u8 {
            if n == 0 {
                return Err(BdecodeError::UnexpectedEof(start));
            }
            if top_dict && stack[n - 1].state {
                return Err(BdecodeError::ExpectedValue(start));
            }
            tokens.push(BdecodeToken::new_end(start as u32));
            let top = stack[n - 1].token as usize;
            let next = tokens.len() - top;
            if next > MAX_NEXT_ITEM {
                return Err(BdecodeError::LimitExceeded(MAX_NEXT_ITEM));
            }
            let ghost closed = views(t0).push(tv(start as nat, BdecodeTokenType::End, 1, 0));
            assert(views(tokens@) =~= closed);
            let mut tk = tokens[top];
            tk.set_next_item(next as u32);
            tokens.set(top, tk);
            stack.pop();
            proof {
                assert(views(tokens@) =~= closed.update(top as int, TokenView { next_item: next as nat, ..closed[top as int] }));
                assert(frames(stack@) =~= s.stack.drop_last());
            }
            start += 1;
        } else {
            if !(48u8 <= t && t <= 57u8) {
                return Err(BdecodeError::ExpectedDigit(start));
            }
            if start + 1 >= end {
                return Err(BdecodeError::UnexpectedEof(start + 1));
            }
            let str_start = start;
            let mut len: i64 = 0;
            let q = match parse_uint(buffer, start, 58u8, &mut len) {
                Err(BdecodeError::ExpectedDigit(q)) => {
                    return Err(BdecodeError::ExpectedColon(q));
                },
                Err(e) => {
                    return Err(e);
                },
                Ok(q) => q,
            };
            assert(uint_spec(buf, start as int, 58, 0) == Ok::<(int, int), ErrorView>((q as int, len as int)));
            if q == end {
                assert(step(buf, dl, s) == Err::<ScanState, ErrorView>(ErrorView::ExpectedColon(start as int)));
                return Err(BdecodeError::ExpectedColon(str_start));
            }
            if len > (end - q - 1) as i64 {
                return Err(BdecodeError::UnexpectedEof(q));
            }
            let header_size = q - str_start;
            if header_size > MAX_HEADER_SIZE {
                return Err(BdecodeError::LimitExceeded(MAX_HEADER_SIZE));
            }
            note_item(&mut stack, &tokens);
            tokens.push(BdecodeToken::new_str(str_start as u32, header_size as u8));
            assert(views(tokens@) =~= views(t0).push(tv(str_start as nat, BdecodeTokenType::Str, 1, header_size as nat)));
            start = q + 1 + len as usize;
        }
        proof {
            reveal(step);
            lemma_step_advances(buf, dl, s);
            assert(step(buf, dl, s) == Ok::<ScanState, ErrorView>(state_of(start, tokens@, stack@, budget)));
        }
        if stack.len() == 0 {
            break;
        }
    }
    let ghost old_tokens = tokens@;
    let ghost old_start = start;
    tokens.push(BdecodeToken::new_end(start as u32));
    proof {
        crate::well_formed::lemma_tokenize_wf(buffer@, depth_limit as nat, token_limit as int);
        assert(views(tokens@) =~= views(old_tokens).push(tv(old_start as nat, BdecodeTokenType::End, 1, 0)));
    }
    Ok(tokens)
}

} // verus!
