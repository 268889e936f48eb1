use vstd::prelude::*;

use crate::token::{Operator, Token};

verus! {

/// The converter's working state: the three stacks and the flag that a
/// multiplicative operator waits for its left operand.
pub struct ConvState {
    pub main: Seq<Token>,
    pub aux: Seq<Token>,
    pub op: Seq<Token>,
    pub waiting: bool,
}

/// The state the conversion starts from: three empty stacks.
pub open spec fn init_state() -> ConvState {
    ConvState { main: Seq::empty(), aux: Seq::empty(), op: Seq::empty(), waiting: false }
}

/// One converter step on token `t`, which is read from the right end of
/// the input.
///
/// A number goes onto `aux`, followed by the waiting multiplicative
/// operator if one is pending; a multiplicative operator goes onto `op`
/// and starts waiting; an additive operator closes the group: `aux` is
/// drained onto `op` and `op` onto `main`, reversing twice, and the
/// operator starts the next group on `op`.
pub open spec fn step_state(st: ConvState, t: Token) -> ConvState {
    match t {
        Token::Number(_) => {
            if st.waiting && st.op.len() > 0 {
                ConvState {
                    aux: st.aux.push(t).push(st.op.last()),
                    op: st.op.drop_last(),
                    waiting: false,
                    ..st
                }
            } else {
                ConvState { aux: st.aux.push(t), waiting: false, ..st }
            }
        },
        Token::Operator(o) => {
            if o.is_mul_level() {
                ConvState { op: st.op.push(t), waiting: true, ..st }
            } else {
                ConvState {
                    main: st.main + st.aux + st.op.reverse(),
                    aux: Seq::empty(),
                    op: seq![t],
                    ..st
                }
            }
        },
    }
}

/// Runs the converter over `toks`, processing the rightmost token first.
pub open spec fn run_conv(st: ConvState, toks: Seq<Token>) -> ConvState
    decreases toks.len(),
{
    if toks.len() == 0 {
        st
    } else {
        run_conv(step_state(st, toks.last()), toks.drop_last())
    }
}

/// The final drain of a state: what is left on `aux` moves through `op`
/// onto `main`, reversing twice.
pub open spec fn flush(st: ConvState) -> Seq<Token> {
    st.main + st.aux + st.op.reverse()
}

/// The postfix form of `toks`: the converter run over all tokens, then
/// drained.
pub open spec fn spec_convert(toks: Seq<Token>) -> Seq<Token> {
    flush(run_conv(init_state(), toks))
}

/// Draining `a` onto `o` and the result onto `m` appends `a` and the
/// reverse of `o` to `m`: the two reversals cancel on `a`.
proof fn lemma_double_drain(m: Seq<Token>, a: Seq<Token>, o: Seq<Token>)
    ensures
        m + (o + a.reverse()).reverse() == m + a + o.reverse(),
{
    assert(m + (o + a.reverse()).reverse() =~= m + a + o.reverse());
}

/// Pops every token of `src` and pushes it onto `dst`, so `dst` grows by
/// `src` reversed.
fn drain(src: &mut Vec<Token>, dst: &mut Vec<Token>)
    ensures
        final(src)@.len() == 0,
        final(dst)@ == old(dst)@ + old(src)@.reverse(),
{
    proof {
        assert(src@ =~= old(src)@.subrange(0, src@.len() as int));
        assert(dst@ =~= old(dst)@ + old(src)@.subrange(
            src@.len() as int,
            old(src)@.len() as int,
        ).reverse());
    }
    while src.len() > 0
        invariant
            src@.len() <= old(src)@.len(),
            src@ == old(src)@.subrange(0, src@.len() as int),
            dst@ == old(dst)@ + old(src)@.subrange(
                src@.len() as int,
                old(src)@.len() as int,
            ).reverse(),
        decreases src@.len(),
    {
        let t = match src.pop() {
            Some(t) => t,
            None => {
                proof {
                    assert(false);
                }
                Token::Number(crate::token::Number { num: 0, den: 1 })
            },
        };
        dst.push(t);
        proof {
            let n = src@.len() as int;
            assert(src@ =~= old(src)@.subrange(0, n));
            assert(old(src)@.subrange(n, old(src)@.len() as int).reverse() =~= old(
                src,
            )@.subrange(n + 1, old(src)@.len() as int).reverse().push(old(src)@[n]));
            assert(dst@ =~= old(dst)@ + old(src)@.subrange(n, old(src)@.len() as int).reverse());
        }
    }
    proof {
        assert(old(src)@.subrange(0, old(src)@.len() as int).reverse() =~= old(src)@.reverse());
        assert(dst@ =~= old(dst)@ + old(src)@.reverse());
    }
}

/// Converts the infix token sequence into postfix order, reading it right
/// to left with the two-stack grouping scheme, exactly as `spec_convert`
/// describes. The input is left unchanged. On a well-formed expression the
/// result is the encoding of its precedence parse, `enc_expr`.
pub fn to_postfix(tokens: &mut Vec<Token>) -> (r: Vec<Token>)
    ensures
        r@ == spec_convert(old(tokens)@),
        final(tokens)@ == old(tokens)@,
        is_expr(old(tokens)@) ==> r@ == enc_expr(old(tokens)@),
{
    let mut main_stack: Vec<Token> = Vec::new();
    let mut aux_stack: Vec<Token> = Vec::new();
    let mut op_stack: Vec<Token> = Vec::new();
    let mut waiting_number: bool = false;
    let mut idx: usize = tokens.len();
    proof {
        assert(tokens@.take(idx as int) =~= tokens@);
    }
    while idx > 0
        invariant
            0 <= idx <= tokens@.len(),
            tokens@ == old(tokens)@,
            waiting_number ==> op_stack@.len() > 0,
            run_conv(init_state(), tokens@) == run_conv(
                ConvState {
                    main: main_stack@,
                    aux: aux_stack@,
                    op: op_stack@,
                    waiting: waiting_number,
                },
                tokens@.take(idx as int),
            ),
        decreases idx,
    {
        idx = idx - 1;
        let t = tokens[idx];
        let ghost pre = ConvState {
            main: main_stack@,
            aux: aux_stack@,
            op: op_stack@,
            waiting: waiting_number,
        };
        proof {
            assert(tokens@.take(idx as int + 1).last() == t);
            assert(tokens@.take(idx as int + 1).drop_last() =~= tokens@.take(idx as int));
            assert(run_conv(pre, tokens@.take(idx as int + 1)) == run_conv(
                step_state(pre, t),
                tokens@.take(idx as int),
            ));
        }
        match t {
            Token::Number(_) => {
                aux_stack.push(t);
                if waiting_number {
                    waiting_number = false;
                    let op = match op_stack.pop() {
                        Some(op) => op,
                        None => {
                            proof {
                                assert(false);
                            }
                            t
                        },
                    };
                    aux_stack.push(op);
                    proof {
                        assert(op_stack@ =~= pre.op.drop_last());
                    }
                }
            },
            Token::Operator(Operator::Add) | Token::Operator(Operator::Sub) => {
                drain(&mut aux_stack, &mut op_stack);
                drain(&mut op_stack, &mut main_stack);
                op_stack.push(t);
                proof {
                    lemma_double_drain(pre.main, pre.aux, pre.op);
                    assert(aux_stack@ =~= Seq::<Token>::empty());
                    assert(op_stack@ =~= seq![t]);
                }
            },
            Token::Operator(Operator::Mul) | Token::Operator(Operator::Div) => {
                op_stack.push(t);
                waiting_number = true;
            },
        }
        proof {
            assert(ConvState {
                main: main_stack@,
                aux: aux_stack@,
                op: op_stack@,
                waiting: waiting_number,
            } == step_state(pre, t));
        }
    }
    let ghost fin = ConvState {
        main: main_stack@,
        aux: aux_stack@,
        op: op_stack@,
        waiting: waiting_number,
    };
    proof {
        assert(tokens@.take(0) =~= Seq::<Token>::empty());
        assert(run_conv(fin, tokens@.take(0)) == fin);
        assert(run_conv(init_state(), tokens@) == fin);
    }
    drain(&mut aux_stack, &mut op_stack);
    drain(&mut op_stack, &mut main_stack);
    proof {
        lemma_double_drain(fin.main, fin.aux, fin.op);
        assert(main_stack@ == flush(fin));
        if is_expr(old(tokens)@) {
            lemma_convert_encodes(old(tokens)@);
        }
    }
    main_stack
}

/// Whether `t` is a number token.
pub open spec fn is_num_tok(t: Token) -> bool {
    t is Number
}

/// Whether `t` is a multiplicative operator token.
pub open spec fn is_mul_tok(t: Token) -> bool {
    t matches Token::Operator(o) && o.is_mul_level()
}

/// Whether `t` is an additive operator token.
pub open spec fn is_add_tok(t: Token) -> bool {
    t matches Token::Operator(o) && !o.is_mul_level()
}

/// Whether `s` is a well-formed expression: numbers alternating with
/// operators, starting and ending with a number.
pub open spec fn is_expr(s: Seq<Token>) -> bool
    decreases s.len(),
{
    (s.len() == 1 && is_num_tok(s[0])) || (s.len() >= 3 && is_num_tok(s[0])
        && s[1] is Operator && is_expr(s.skip(2)))
}

/// Whether `s` is a well-formed product chain: numbers alternating with
/// multiplicative operators only.
pub open spec fn is_chain(s: Seq<Token>) -> bool
    decreases s.len(),
{
    (s.len() == 1 && is_num_tok(s[0])) || (s.len() >= 3 && is_num_tok(s[0]) && is_mul_tok(s[1])
        && is_chain(s.skip(2)))
}

/// The length of the leading product chain of an expression: the tokens
/// up to the first additive operator, or all of them.
pub open spec fn chain_len(s: Seq<Token>) -> int
    decreases s.len(),
{
    if s.len() >= 3 && is_mul_tok(s[1]) {
        2 + chain_len(s.skip(2))
    } else {
        1
    }
}

/// The postfix encoding of a product chain `n1 m1 n2 m2 ... nk`:
/// `enc(rest) ++ [n1, m1]`, so the first factor and its operator come
/// last and the evaluator meets them first.
pub open spec fn enc_chain(s: Seq<Token>) -> Seq<Token>
    decreases s.len(),
{
    if s.len() >= 3 && is_mul_tok(s[1]) {
        enc_chain(s.skip(2)) + seq![s[0], s[1]]
    } else {
        s.take(1)
    }
}

/// The postfix encoding of an expression `t1 a1 t2 a2 ... tk`:
/// `enc(rest) ++ enc_chain(t1) ++ [a1]`, so the leading group and its
/// additive operator come last and the evaluator meets them first.
pub open spec fn enc_expr(s: Seq<Token>) -> Seq<Token>
    decreases s.len(),
{
    let k = chain_len(s);
    if 1 <= k && k + 1 < s.len() {
        enc_expr(s.skip(k + 1)) + enc_chain(s.take(k)) + seq![s[k]]
    } else {
        enc_chain(s)
    }
}

/// Structure of a well-formed expression around its leading chain: the
/// chain is well formed, and what follows is an additive operator and a
/// well-formed expression, or nothing.
pub proof fn lemma_expr_structure(s: Seq<Token>)
    requires
        is_expr(s),
    ensures
        1 <= chain_len(s) <= s.len(),
        is_chain(s.take(chain_len(s))),
        chain_len(s) < s.len() ==> chain_len(s) + 1 < s.len() && is_add_tok(s[chain_len(s)])
            && is_expr(s.skip(chain_len(s) + 1)),
    decreases s.len(),
{
    let cl = chain_len(s);
    if s.len() >= 3 && is_mul_tok(s[1]) {
        lemma_expr_structure(s.skip(2));
        let k = chain_len(s.skip(2));
        assert(cl == 2 + k);
        let lead = s.take(cl);
        assert(lead[0] == s[0] && lead[1] == s[1]);
        assert(lead.skip(2) =~= s.skip(2).take(k));
        assert(is_chain(lead));
        if cl < s.len() {
            assert(s.skip(2).skip(k + 1) =~= s.skip(cl + 1));
            assert(s.skip(2)[k] == s[cl]);
        }
    } else if s.len() >= 3 {
        assert(s.take(1) =~= seq![s[0]]);
        assert(s.skip(2) =~= s.skip(cl + 1));
    } else {
        assert(s.take(1) =~= s);
    }
}

/// Running the converter over a concatenation processes the right part
/// first and continues with the left part from the state it reaches.
pub proof fn lemma_run_concat(st: ConvState, a: Seq<Token>, b: Seq<Token>)
    ensures
        run_conv(st, a + b) == run_conv(run_conv(st, b), a),
    decreases b.len(),
{
    if b.len() == 0 {
        assert(a + b =~= a);
    } else {
        let st1 = step_state(st, b.last());
        assert((a + b).last() == b.last());
        assert((a + b).drop_last() =~= a + b.drop_last());
        assert(run_conv(st, a + b) == run_conv(st1, a + b.drop_last()));
        lemma_run_concat(st1, a, b.drop_last());
        assert(run_conv(st, b) == run_conv(st1, b.drop_last()));
    }
}

/// Running the converter over one token is one step.
proof fn lemma_run_one(st: ConvState, t: Token)
    ensures
        run_conv(st, seq![t]) == step_state(st, t),
{
    assert(seq![t].last() == t);
    assert(seq![t].drop_last() =~= Seq::<Token>::empty());
    assert(run_conv(st, seq![t]) == run_conv(step_state(st, t), seq![t].drop_last()));
}

/// Processing a well-formed product chain from a state with the waiting
/// flag clear appends the chain's encoding to `aux` and touches nothing
/// else.
proof fn lemma_run_chain(st: ConvState, s: Seq<Token>)
    requires
        is_chain(s),
        !st.waiting,
    ensures
        run_conv(st, s) == (ConvState { aux: st.aux + enc_chain(s), waiting: false, ..st }),
    decreases s.len(),
{
    if s.len() == 1 {
        assert(s =~= seq![s[0]]);
        lemma_run_one(st, s[0]);
        assert(enc_chain(s) == s.take(1));
        assert(s.take(1) =~= seq![s[0]]);
        assert(st.aux.push(s[0]) =~= st.aux + enc_chain(s));
    } else {
        let rest = s.skip(2);
        lemma_run_chain(st, rest);
        let st1 = run_conv(st, rest);
        assert(s =~= seq![s[0], s[1]] + rest);
        lemma_run_concat(st, seq![s[0], s[1]], rest);
        let two = seq![s[0], s[1]];
        assert(two.last() == s[1]);
        assert(two.drop_last() =~= seq![s[0]]);
        let st2 = step_state(st1, s[1]);
        let st3 = step_state(st2, s[0]);
        assert(run_conv(st1, two) == run_conv(st2, two.drop_last()));
        lemma_run_one(st2, s[0]);
        assert(run_conv(st, s) == st3);
        assert(st2.op == st1.op.push(s[1]) && st2.waiting);
        assert(st2.op.drop_last() =~= st1.op);
        assert(st2.op.last() == s[1]);
        assert(st3.aux =~= st.aux + enc_chain(rest) + seq![s[0], s[1]]);
        assert(st.aux + enc_chain(rest) + seq![s[0], s[1]] =~= st.aux + enc_chain(s));
        assert(st3 == (ConvState { aux: st.aux + enc_chain(s), waiting: false, ..st }));
    }
}

/// Processing a well-formed expression from a boundary state, with `aux`
/// and `op` empty and nothing waiting: `main` gains the encodings of all
/// groups after the leading chain, `aux` holds the leading chain's
/// encoding, and `op` holds the additive operator that follows the
/// leading chain, if any.
proof fn lemma_run_expr(st: ConvState, s: Seq<Token>)
    requires
        is_expr(s),
        !st.waiting,
        st.aux.len() == 0,
        st.op.len() == 0,
    ensures
        ({
            let k = chain_len(s);
            let res = run_conv(st, s);
            if k == s.len() {
                res == (ConvState { aux: enc_chain(s), waiting: false, ..st })
            } else {
                res == (ConvState {
                    main: st.main + enc_expr(s.skip(k + 1)),
                    aux: enc_chain(s.take(k)),
                    op: seq![s[k]],
                    waiting: false,
                })
            }
        }),
    decreases s.len(),
{
    lemma_expr_structure(s);
    let k = chain_len(s);
    if k == s.len() {
        assert(s.take(k) =~= s);
        lemma_run_chain(st, s);
        assert(st.aux + enc_chain(s) =~= enc_chain(s));
    } else {
        let lead = s.take(k);
        let a = s[k];
        let rest = s.skip(k + 1);
        lemma_expr_structure(rest);
        assert(s =~= (lead + seq![a]) + rest);
        lemma_run_concat(st, lead + seq![a], rest);
        lemma_run_expr(st, rest);
        let st1 = run_conv(st, rest);
        lemma_run_concat(st1, lead, seq![a]);
        lemma_run_one(st1, a);
        let st2 = step_state(st1, a);
        assert(is_add_tok(a));
        let kr = chain_len(rest);
        if kr == rest.len() {
            assert(st.op.reverse() =~= Seq::<Token>::empty());
            assert(st2.main =~= st.main + enc_chain(rest));
            assert(enc_expr(rest) == enc_chain(rest));
        } else {
            assert(seq![rest[kr]].reverse() =~= seq![rest[kr]]);
            assert(st2.main =~= st.main + (enc_expr(rest.skip(kr + 1)) + enc_chain(
                rest.take(kr),
            ) + seq![rest[kr]]));
            assert(enc_expr(rest) == enc_expr(rest.skip(kr + 1)) + enc_chain(rest.take(kr))
                + seq![rest[kr]]);
            assert(st2.main =~= st.main + enc_expr(rest));
        }
        assert(st2.aux =~= Seq::<Token>::empty());
        assert(st2.op =~= seq![a]);
        assert(!st2.waiting);
        lemma_run_chain(st2, lead);
        let st3 = run_conv(st2, lead);
        assert(st2.aux + enc_chain(lead) =~= enc_chain(lead));
        assert(run_conv(st, s) == st3);
        assert(st3 == (ConvState {
            main: st.main + enc_expr(rest),
            aux: enc_chain(lead),
            op: seq![a],
            waiting: false,
        }));
    }
}

/// On a well-formed expression the converter yields exactly the postfix
/// encoding of its precedence parse.
pub proof fn lemma_convert_encodes(s: Seq<Token>)
    requires
        is_expr(s),
    ensures
        spec_convert(s) == enc_expr(s),
{
    lemma_expr_structure(s);
    lemma_run_expr(init_state(), s);
    let st = run_conv(init_state(), s);
    let k = chain_len(s);
    if k == s.len() {
        assert(flush(st) =~= enc_chain(s));
        assert(enc_expr(s) == enc_chain(s));
    } else {
        assert(seq![s[k]].reverse() =~= seq![s[k]]);
        assert(flush(st) =~= enc_expr(s.skip(k + 1)) + enc_chain(s.take(k)) + seq![s[k]]);
    }
}

} // verus!
