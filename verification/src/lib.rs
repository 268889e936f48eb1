//! A verified calculator for one line of arithmetic text.
//!
//! The pipeline has three stages: scanning character ranges into typed
//! token ranges, converting the infix token sequence into postfix order
//! with a two-stack grouping scheme, and recursively evaluating the
//! postfix sequence. Numbers are exact rationals, so every arithmetic
//! step is either exact or reported as out of range.

mod arith;
mod eval;
mod lex;
mod postfix;
mod scan;
mod token;

pub use arith::{apply_op, spec_apply, spec_make};
pub use eval::{chain_fold_left, eval_postfix, eval_step, evaluate, expr_fold_left, lead_len, lemma_eval_unfold, num_of, only_add_mul, op_of, spec_eval, spec_evaluate, theorem_postfix_round_trip, theorem_round_trip_left_to_right, val_chain, val_chain_left, val_expr, val_expr_left};
pub use lex::{all_digits, digits_val, first_dot, frac_len, lemma_first_dot, lemma_scan_ranges_wf, lex_view, number_digits, numbers_parseable, parse_number, parseable, pow10, range_wf, spec_lex, spec_lex_one, spec_numbers_parseable, spec_op_of, spec_parse_number, spec_tokenize, tokenize};
pub use scan::{index_tokens, is_digit_char, is_delimiter_char, is_number_char, is_operator_char, lemma_scan_deterministic, lemma_scan_stops_at_first_invalid, scan_view, spec_scan, spec_scan_from, valid_char};
pub use postfix::{chain_len, enc_chain, enc_expr, flush, init_state, is_add_tok, is_chain, is_expr, is_mul_tok, is_num_tok, lemma_convert_encodes, lemma_expr_structure, lemma_run_concat, run_conv, spec_convert, step_state, to_postfix, ConvState};
pub use token::{CalcError, Number, Operator, Token, TokenIndexes};
