//! PC1: a demonstration reversible ARX block cipher built only from reversible
//! phase-vm instructions, so decryption is the backward run of the kernel.
//!
//! Block 256 bits (r0..r3), key 256 bits (r4..r7, only ever read), round
//! counter r8 (incremented inside the round body). Not a vetted cipher: a
//! demonstrator of "decrypt = reverse".
use vstd::prelude::*;
use crate::inst::{Inst, inverse_spec, invertible, step, text_spec, wadd};
use crate::machine::{
    RollOut, leaves, repeat, rollback_spec, run_spec, lemma_run_concat, law_roundtrip,
    lemma_flatten_push, reverse_all, run_forward,
};
use crate::program::{Node, NodeV, Program, law_parse_text_lines, lines_text, node_view, nodes_view, parse_spec, regs_below};
use crate::text::{dec_spec, lemma_digit_char};
use crate::state::{State, StateV};

verus! {

/// The text of one round (the body of `rep`): the round counter r8 is mixed
/// into r0, then come the 16 ARX leaves of the round (add, rotate, xor over
/// the block r0..r3, then the key words r4..r7 added in), then r8 is
/// incremented: 18 leaves in all.
pub const PC1_ROUND_BODY: &'static str = "xor r0 r8\nadd r0 r1\nrotl r1 17\nxor r1 r0\nadd r2 r3\nrotl r3 13\nxor r3 r2\nadd r0 r2\nrotl r2 9\nxor r2 r0\nadd r1 r3\nrotl r3 5\nxor r3 r1\nadd r0 r4\nadd r1 r5\nadd r2 r6\nadd r3 r7\ninc r8\n";

/// The instructions of one round, as `PC1_ROUND_BODY` spells them.
pub open spec fn round_body() -> Seq<Inst> {
    seq![
        Inst::Xor(0, 8), Inst::Add(0, 1), Inst::RotL(1, 17), Inst::Xor(1, 0),
        Inst::Add(2, 3), Inst::RotL(3, 13), Inst::Xor(3, 2), Inst::Add(0, 2),
        Inst::RotL(2, 9), Inst::Xor(2, 0), Inst::Add(1, 3), Inst::RotL(3, 5),
        Inst::Xor(3, 1), Inst::Add(0, 4), Inst::Add(1, 5), Inst::Add(2, 6),
        Inst::Add(3, 7), Inst::Inc(8),
    ]
}

/// The 16 ARX leaves of a round, between the counter's two.
pub open spec fn mix_body() -> Seq<Inst> {
    seq![
        Inst::Add(0, 1), Inst::RotL(1, 17), Inst::Xor(1, 0),
        Inst::Add(2, 3), Inst::RotL(3, 13), Inst::Xor(3, 2), Inst::Add(0, 2),
        Inst::RotL(2, 9), Inst::Xor(2, 0), Inst::Add(1, 3), Inst::RotL(3, 5),
        Inst::Xor(3, 1), Inst::Add(0, 4), Inst::Add(1, 5), Inst::Add(2, 6),
        Inst::Add(3, 7),
    ]
}

/// An ARX leaf over the block: an add, xor or left rotation whose destination
/// is a block word r0..r3 and whose source, if any, is another of r0..r7.
pub open spec fn arx_leaf(i: Inst) -> bool {
    match i {
        Inst::Add(d, s) | Inst::Xor(d, s) => d < 4 && s < 8 && d != s,
        Inst::RotL(r, _) => r < 4,
        _ => false,
    }
}

/// Law: a round is the counter mixed into r0, the 16 ARX leaves, and the
/// counter incremented. No leaf is a conditional swap (no data-dependent
/// branch), no leaf writes the key words r4..r7, and every leaf is invertible.
pub proof fn law_round_shape()
    ensures
        round_body() == seq![Inst::Xor(0, 8)] + mix_body() + seq![Inst::Inc(8)],
        mix_body().len() == 16,
        round_body().len() == 18,
        forall|i: int| 0 <= i < mix_body().len() ==> arx_leaf(#[trigger] mix_body()[i]),
        forall|i: int| 0 <= i < round_body().len() ==> !(#[trigger] round_body()[i] is CSwap) && invertible(round_body()[i]),
{
    assert(round_body() =~= seq![Inst::Xor(0, 8)] + mix_body() + seq![Inst::Inc(8)]);
}

/// `i` reads register `r` as the source of an add or xor.
pub open spec fn adds_or_xors_in(i: Inst, r: u8) -> bool {
    match i {
        Inst::Add(_, x) | Inst::Xor(_, x) => x == r,
        _ => false,
    }
}

/// Some leaf of a round adds or xors register `r` into another.
pub open spec fn read_in_round(r: u8) -> bool {
    exists|i: int| 0 <= i < round_body().len() && #[trigger] adds_or_xors_in(round_body()[i], r)
}

/// Law: every round mixes in every key word. Each of r4..r7 is the source of
/// an add into the block in every round, so each key word reaches the
/// ciphertext; and the round counter r8 is xored into the block.
pub proof fn law_round_reads_key()
    ensures
        forall|w: u8| 4 <= w <= 8 ==> #[trigger] read_in_round(w),
{
    assert forall|w: u8| 4 <= w <= 8 implies #[trigger] read_in_round(w) by {
        if w == 8 {
            assert(adds_or_xors_in(round_body()[0], w));
        } else {
            assert(adds_or_xors_in(round_body()[w as int + 9], w));
        }
    }
}


/// The text form of the leaves of a round, one line each.
#[verifier::opaque]
pub open spec fn round_lines() -> Seq<Seq<char>> {
    round_body().map_values(|i: Inst| text_spec(i))
}

/// The text form of each leaf of a round, as `PC1_ROUND_BODY` spells it.
proof fn lemma_round_line_texts()
    ensures
        round_lines().len() == 18,
        round_lines()[0] + seq!['\n'] == "xor r0 r8\n"@,
        round_lines()[1] + seq!['\n'] == "add r0 r1\n"@,
        round_lines()[2] + seq!['\n'] == "rotl r1 17\n"@,
        round_lines()[3] + seq!['\n'] == "xor r1 r0\n"@,
        round_lines()[4] + seq!['\n'] == "add r2 r3\n"@,
        round_lines()[5] + seq!['\n'] == "rotl r3 13\n"@,
        round_lines()[6] + seq!['\n'] == "xor r3 r2\n"@,
        round_lines()[7] + seq!['\n'] == "add r0 r2\n"@,
        round_lines()[8] + seq!['\n'] == "rotl r2 9\n"@,
        round_lines()[9] + seq!['\n'] == "xor r2 r0\n"@,
        round_lines()[10] + seq!['\n'] == "add r1 r3\n"@,
        round_lines()[11] + seq!['\n'] == "rotl r3 5\n"@,
        round_lines()[12] + seq!['\n'] == "xor r3 r1\n"@,
        round_lines()[13] + seq!['\n'] == "add r0 r4\n"@,
        round_lines()[14] + seq!['\n'] == "add r1 r5\n"@,
        round_lines()[15] + seq!['\n'] == "add r2 r6\n"@,
        round_lines()[16] + seq!['\n'] == "add r3 r7\n"@,
        round_lines()[17] + seq!['\n'] == "inc r8\n"@,
{
    reveal(round_lines);
    reveal_strlit("xor");
    reveal_strlit("add");
    reveal_strlit("rotl");
    reveal_strlit("inc");
    reveal_strlit("xor r0 r8\n");
    reveal_strlit("add r0 r1\n");
    reveal_strlit("rotl r1 17\n");
    reveal_strlit("xor r1 r0\n");
    reveal_strlit("add r2 r3\n");
    reveal_strlit("rotl r3 13\n");
    reveal_strlit("xor r3 r2\n");
    reveal_strlit("add r0 r2\n");
    reveal_strlit("rotl r2 9\n");
    reveal_strlit("xor r2 r0\n");
    reveal_strlit("add r1 r3\n");
    reveal_strlit("rotl r3 5\n");
    reveal_strlit("xor r3 r1\n");
    reveal_strlit("add r0 r4\n");
    reveal_strlit("add r1 r5\n");
    reveal_strlit("add r2 r6\n");
    reveal_strlit("add r3 r7\n");
    reveal_strlit("inc r8\n");
    lemma_digit_char(0);
    lemma_digit_char(1);
    lemma_digit_char(2);
    lemma_digit_char(3);
    lemma_digit_char(4);
    lemma_digit_char(5);
    lemma_digit_char(6);
    lemma_digit_char(7);
    lemma_digit_char(8);
    lemma_digit_char(9);
    assert(dec_spec(0) =~= seq!['0']);
    assert(dec_spec(1) =~= seq!['1']);
    assert(dec_spec(2) =~= seq!['2']);
    assert(dec_spec(3) =~= seq!['3']);
    assert(dec_spec(4) =~= seq!['4']);
    assert(dec_spec(5) =~= seq!['5']);
    assert(dec_spec(6) =~= seq!['6']);
    assert(dec_spec(7) =~= seq!['7']);
    assert(dec_spec(8) =~= seq!['8']);
    assert(dec_spec(9) =~= seq!['9']);
    assert(dec_spec(13) =~= seq!['1', '3']);
    assert(dec_spec(17) =~= seq!['1', '7']);
    assert(text_spec(round_body()[0]) + seq!['\n'] =~= "xor r0 r8\n"@);
    assert(text_spec(round_body()[1]) + seq!['\n'] =~= "add r0 r1\n"@);
    assert(text_spec(round_body()[2]) + seq!['\n'] =~= "rotl r1 17\n"@);
    assert(text_spec(round_body()[3]) + seq!['\n'] =~= "xor r1 r0\n"@);
    assert(text_spec(round_body()[4]) + seq!['\n'] =~= "add r2 r3\n"@);
    assert(text_spec(round_body()[5]) + seq!['\n'] =~= "rotl r3 13\n"@);
    assert(text_spec(round_body()[6]) + seq!['\n'] =~= "xor r3 r2\n"@);
    assert(text_spec(round_body()[7]) + seq!['\n'] =~= "add r0 r2\n"@);
    assert(text_spec(round_body()[8]) + seq!['\n'] =~= "rotl r2 9\n"@);
    assert(text_spec(round_body()[9]) + seq!['\n'] =~= "xor r2 r0\n"@);
    assert(text_spec(round_body()[10]) + seq!['\n'] =~= "add r1 r3\n"@);
    assert(text_spec(round_body()[11]) + seq!['\n'] =~= "rotl r3 5\n"@);
    assert(text_spec(round_body()[12]) + seq!['\n'] =~= "xor r3 r1\n"@);
    assert(text_spec(round_body()[13]) + seq!['\n'] =~= "add r0 r4\n"@);
    assert(text_spec(round_body()[14]) + seq!['\n'] =~= "add r1 r5\n"@);
    assert(text_spec(round_body()[15]) + seq!['\n'] =~= "add r2 r6\n"@);
    assert(text_spec(round_body()[16]) + seq!['\n'] =~= "add r3 r7\n"@);
    assert(text_spec(round_body()[17]) + seq!['\n'] =~= "inc r8\n"@);
}

/// `PC1_ROUND_BODY` is its lines, each ended by a newline.
proof fn lemma_round_literal()
    ensures
        PC1_ROUND_BODY@ == "xor r0 r8\n"@ + "add r0 r1\n"@ + "rotl r1 17\n"@ + "xor r1 r0\n"@ + "add r2 r3\n"@ + "rotl r3 13\n"@ + "xor r3 r2\n"@ + "add r0 r2\n"@ + "rotl r2 9\n"@ + "xor r2 r0\n"@ + "add r1 r3\n"@ + "rotl r3 5\n"@ + "xor r3 r1\n"@ + "add r0 r4\n"@ + "add r1 r5\n"@ + "add r2 r6\n"@ + "add r3 r7\n"@ + "inc r8\n"@,
{
    reveal_strlit("xor r0 r8\nadd r0 r1\nrotl r1 17\nxor r1 r0\nadd r2 r3\nrotl r3 13\nxor r3 r2\nadd r0 r2\nrotl r2 9\nxor r2 r0\nadd r1 r3\nrotl r3 5\nxor r3 r1\nadd r0 r4\nadd r1 r5\nadd r2 r6\nadd r3 r7\ninc r8\n");
    reveal_strlit("xor r0 r8\n");
    reveal_strlit("add r0 r1\n");
    reveal_strlit("rotl r1 17\n");
    reveal_strlit("xor r1 r0\n");
    reveal_strlit("add r2 r3\n");
    reveal_strlit("rotl r3 13\n");
    reveal_strlit("xor r3 r2\n");
    reveal_strlit("add r0 r2\n");
    reveal_strlit("rotl r2 9\n");
    reveal_strlit("xor r2 r0\n");
    reveal_strlit("add r1 r3\n");
    reveal_strlit("rotl r3 5\n");
    reveal_strlit("xor r3 r1\n");
    reveal_strlit("add r0 r4\n");
    reveal_strlit("add r1 r5\n");
    reveal_strlit("add r2 r6\n");
    reveal_strlit("add r3 r7\n");
    reveal_strlit("inc r8\n");
    assert(PC1_ROUND_BODY@ =~= "xor r0 r8\n"@ + "add r0 r1\n"@ + "rotl r1 17\n"@ + "xor r1 r0\n"@ + "add r2 r3\n"@ + "rotl r3 13\n"@ + "xor r3 r2\n"@ + "add r0 r2\n"@ + "rotl r2 9\n"@ + "xor r2 r0\n"@ + "add r1 r3\n"@ + "rotl r3 5\n"@ + "xor r3 r1\n"@ + "add r0 r4\n"@ + "add r1 r5\n"@ + "add r2 r6\n"@ + "add r3 r7\n"@ + "inc r8\n"@);
}

/// `PC1_ROUND_BODY` is the text form of the round, one leaf per line.
proof fn lemma_lines_text_push(ls: Seq<Seq<char>>, x: Seq<char>)
    ensures
        lines_text(ls.push(x)) == lines_text(ls) + (x + seq!['\n']),
{
    assert(ls.push(x).drop_last() =~= ls);
}

proof fn lemma_round_text()
    ensures
        PC1_ROUND_BODY@ == lines_text(round_lines()),
{
    let ts = round_lines();
    lemma_round_line_texts();
    lemma_round_literal();
    let p0 = Seq::<Seq<char>>::empty();
    assert(lines_text(p0) == Seq::<char>::empty());
    assert(Seq::<char>::empty() + "xor r0 r8\n"@ =~= "xor r0 r8\n"@);
    let p1 = p0.push(ts[0]);
    lemma_lines_text_push(p0, ts[0]);
    assert(lines_text(p1) == "xor r0 r8\n"@);
    let p2 = p1.push(ts[1]);
    lemma_lines_text_push(p1, ts[1]);
    assert(lines_text(p2) == "xor r0 r8\n"@ + "add r0 r1\n"@);
    let p3 = p2.push(ts[2]);
    lemma_lines_text_push(p2, ts[2]);
    assert(lines_text(p3) == "xor r0 r8\n"@ + "add r0 r1\n"@ + "rotl r1 17\n"@);
    let p4 = p3.push(ts[3]);
    lemma_lines_text_push(p3, ts[3]);
    assert(lines_text(p4) == "xor r0 r8\n"@ + "add r0 r1\n"@ + "rotl r1 17\n"@ + "xor r1 r0\n"@);
    let p5 = p4.push(ts[4]);
    lemma_lines_text_push(p4, ts[4]);
    assert(lines_text(p5) == "xor r0 r8\n"@ + "add r0 r1\n"@ + "rotl r1 17\n"@ + "xor r1 r0\n"@ + "add r2 r3\n"@);
    let p6 = p5.push(ts[5]);
    lemma_lines_text_push(p5, ts[5]);
    assert(lines_text(p6) == "xor r0 r8\n"@ + "add r0 r1\n"@ + "rotl r1 17\n"@ + "xor r1 r0\n"@ + "add r2 r3\n"@ + "rotl r3 13\n"@);
    let p7 = p6.push(ts[6]);
    lemma_lines_text_push(p6, ts[6]);
    assert(lines_text(p7) == "xor r0 r8\n"@ + "add r0 r1\n"@ + "rotl r1 17\n"@ + "xor r1 r0\n"@ + "add r2 r3\n"@ + "rotl r3 13\n"@ + "xor r3 r2\n"@);
    let p8 = p7.push(ts[7]);
    lemma_lines_text_push(p7, ts[7]);
    assert(lines_text(p8) == "xor r0 r8\n"@ + "add r0 r1\n"@ + "rotl r1 17\n"@ + "xor r1 r0\n"@ + "add r2 r3\n"@ + "rotl r3 13\n"@ + "xor r3 r2\n"@ + "add r0 r2\n"@);
    let p9 = p8.push(ts[8]);
    lemma_lines_text_push(p8, ts[8]);
    assert(lines_text(p9) == "xor r0 r8\n"@ + "add r0 r1\n"@ + "rotl r1 17\n"@ + "xor r1 r0\n"@ + "add r2 r3\n"@ + "rotl r3 13\n"@ + "xor r3 r2\n"@ + "add r0 r2\n"@ + "rotl r2 9\n"@);
    let p10 = p9.push(ts[9]);
    lemma_lines_text_push(p9, ts[9]);
    assert(lines_text(p10) == "xor r0 r8\n"@ + "add r0 r1\n"@ + "rotl r1 17\n"@ + "xor r1 r0\n"@ + "add r2 r3\n"@ + "rotl r3 13\n"@ + "xor r3 r2\n"@ + "add r0 r2\n"@ + "rotl r2 9\n"@ + "xor r2 r0\n"@);
    let p11 = p10.push(ts[10]);
    lemma_lines_text_push(p10, ts[10]);
    assert(lines_text(p11) == "xor r0 r8\n"@ + "add r0 r1\n"@ + "rotl r1 17\n"@ + "xor r1 r0\n"@ + "add r2 r3\n"@ + "rotl r3 13\n"@ + "xor r3 r2\n"@ + "add r0 r2\n"@ + "rotl r2 9\n"@ + "xor r2 r0\n"@ + "add r1 r3\n"@);
    let p12 = p11.push(ts[11]);
    lemma_lines_text_push(p11, ts[11]);
    assert(lines_text(p12) == "xor r0 r8\n"@ + "add r0 r1\n"@ + "rotl r1 17\n"@ + "xor r1 r0\n"@ + "add r2 r3\n"@ + "rotl r3 13\n"@ + "xor r3 r2\n"@ + "add r0 r2\n"@ + "rotl r2 9\n"@ + "xor r2 r0\n"@ + "add r1 r3\n"@ + "rotl r3 5\n"@);
    let p13 = p12.push(ts[12]);
    lemma_lines_text_push(p12, ts[12]);
    assert(lines_text(p13) == "xor r0 r8\n"@ + "add r0 r1\n"@ + "rotl r1 17\n"@ + "xor r1 r0\n"@ + "add r2 r3\n"@ + "rotl r3 13\n"@ + "xor r3 r2\n"@ + "add r0 r2\n"@ + "rotl r2 9\n"@ + "xor r2 r0\n"@ + "add r1 r3\n"@ + "rotl r3 5\n"@ + "xor r3 r1\n"@);
    let p14 = p13.push(ts[13]);
    lemma_lines_text_push(p13, ts[13]);
    assert(lines_text(p14) == "xor r0 r8\n"@ + "add r0 r1\n"@ + "rotl r1 17\n"@ + "xor r1 r0\n"@ + "add r2 r3\n"@ + "rotl r3 13\n"@ + "xor r3 r2\n"@ + "add r0 r2\n"@ + "rotl r2 9\n"@ + "xor r2 r0\n"@ + "add r1 r3\n"@ + "rotl r3 5\n"@ + "xor r3 r1\n"@ + "add r0 r4\n"@);
    let p15 = p14.push(ts[14]);
    lemma_lines_text_push(p14, ts[14]);
    assert(lines_text(p15) == "xor r0 r8\n"@ + "add r0 r1\n"@ + "rotl r1 17\n"@ + "xor r1 r0\n"@ + "add r2 r3\n"@ + "rotl r3 13\n"@ + "xor r3 r2\n"@ + "add r0 r2\n"@ + "rotl r2 9\n"@ + "xor r2 r0\n"@ + "add r1 r3\n"@ + "rotl r3 5\n"@ + "xor r3 r1\n"@ + "add r0 r4\n"@ + "add r1 r5\n"@);
    let p16 = p15.push(ts[15]);
    lemma_lines_text_push(p15, ts[15]);
    assert(lines_text(p16) == "xor r0 r8\n"@ + "add r0 r1\n"@ + "rotl r1 17\n"@ + "xor r1 r0\n"@ + "add r2 r3\n"@ + "rotl r3 13\n"@ + "xor r3 r2\n"@ + "add r0 r2\n"@ + "rotl r2 9\n"@ + "xor r2 r0\n"@ + "add r1 r3\n"@ + "rotl r3 5\n"@ + "xor r3 r1\n"@ + "add r0 r4\n"@ + "add r1 r5\n"@ + "add r2 r6\n"@);
    let p17 = p16.push(ts[16]);
    lemma_lines_text_push(p16, ts[16]);
    assert(lines_text(p17) == "xor r0 r8\n"@ + "add r0 r1\n"@ + "rotl r1 17\n"@ + "xor r1 r0\n"@ + "add r2 r3\n"@ + "rotl r3 13\n"@ + "xor r3 r2\n"@ + "add r0 r2\n"@ + "rotl r2 9\n"@ + "xor r2 r0\n"@ + "add r1 r3\n"@ + "rotl r3 5\n"@ + "xor r3 r1\n"@ + "add r0 r4\n"@ + "add r1 r5\n"@ + "add r2 r6\n"@ + "add r3 r7\n"@);
    let p18 = p17.push(ts[17]);
    lemma_lines_text_push(p17, ts[17]);
    assert(lines_text(p18) == "xor r0 r8\n"@ + "add r0 r1\n"@ + "rotl r1 17\n"@ + "xor r1 r0\n"@ + "add r2 r3\n"@ + "rotl r3 13\n"@ + "xor r3 r2\n"@ + "add r0 r2\n"@ + "rotl r2 9\n"@ + "xor r2 r0\n"@ + "add r1 r3\n"@ + "rotl r3 5\n"@ + "xor r3 r1\n"@ + "add r0 r4\n"@ + "add r1 r5\n"@ + "add r2 r6\n"@ + "add r3 r7\n"@ + "inc r8\n"@);
    assert(p18 =~= ts);
}

/// Law: the round the cipher runs is exactly the round its text spells.
/// Parsing `PC1_ROUND_BODY` over 16 registers gives the leaves of a round,
/// in order, so the kernel and its published text cannot drift apart.
pub proof fn law_round_text()
    ensures
        parse_spec(PC1_ROUND_BODY@, 16) == Ok::<Seq<NodeV>, Seq<char>>(round_body().map_values(|i: Inst| NodeV::Inst(i))),
{
    lemma_round_text();
    reveal(round_lines);
    assert forall|k: int| 0 <= k < round_body().len() implies regs_below(#[trigger] round_body()[k], 16) by {}
    law_parse_text_lines(round_body(), 16);
}

/// The machine state a block is processed in: the block in r0..r3, the key in
/// r4..r7, the counter in r8, r9..r15 zero, no memory.
pub open spec fn cipher_init(w: Seq<u64>, key: Seq<u64>, counter: u64) -> StateV {
    StateV { regs: w + key + seq![counter] + Seq::new(7, |i: int| 0u64), mem: Seq::empty() }
}

/// The ciphertext: r0..r3 after the forward run of `rounds` rounds from counter 0.
pub open spec fn encrypt_spec(pt: Seq<u64>, key: Seq<u64>, rounds: nat) -> Seq<u64> {
    run_spec(repeat(round_body(), rounds), cipher_init(pt, key, 0)).state.regs.take(4)
}

/// The plaintext: r0..r3 after rolling back `rounds` rounds from counter `rounds`.
pub open spec fn decrypt_spec(ct: Seq<u64>, key: Seq<u64>, rounds: nat) -> Seq<u64> {
    rollback_spec(
        repeat(round_body(), rounds).reverse(),
        cipher_init(ct, key, rounds as u64),
        u64::MAX as nat,
    ).state.regs.take(4)
}

fn round_insts() -> (v: Vec<Inst>)
    ensures
        v@ == round_body(),
{
    let mut v: Vec<Inst> = Vec::new();
    v.push(Inst::Xor(0, 8));
    v.push(Inst::Add(0, 1));
    v.push(Inst::RotL(1, 17));
    v.push(Inst::Xor(1, 0));
    v.push(Inst::Add(2, 3));
    v.push(Inst::RotL(3, 13));
    v.push(Inst::Xor(3, 2));
    v.push(Inst::Add(0, 2));
    v.push(Inst::RotL(2, 9));
    v.push(Inst::Xor(2, 0));
    v.push(Inst::Add(1, 3));
    v.push(Inst::RotL(3, 5));
    v.push(Inst::Xor(3, 1));
    v.push(Inst::Add(0, 4));
    v.push(Inst::Add(1, 5));
    v.push(Inst::Add(2, 6));
    v.push(Inst::Add(3, 7));
    v.push(Inst::Inc(8));
    assert(v@ =~= round_body());
    v
}

/// The cipher kernel: `rep rounds` of the round body, over 16 registers.
/// Purely reversible: no boundaries.
pub fn pc1_kernel(rounds: u64) -> (p: Program)
    ensures
        leaves(p.nodes@) == repeat(round_body(), rounds as nat),
        p.nregs == 16,
{
    let insts = round_insts();
    let mut body: Vec<Node> = Vec::new();
    let mut i: usize = 0;
    while i < insts.len()
        invariant
            i <= insts.len(),
            insts@ == round_body(),
            body@.len() == i,
            leaves(body@) == insts@.take(i as int),
        decreases insts.len() - i,
    {
        let ghost old_body = body@;
        body.push(Node::Inst(insts[i]));
        proof {
            assert(body@.take(i as int) =~= old_body);
            assert(body@.take(i as int + 1) =~= body@);
            lemma_flatten_push(body@, i as int);
            assert(insts@.take(i as int + 1) =~= insts@.take(i as int).push(insts@[i as int]));
        }
        i += 1;
    }
    assert(insts@.take(18) =~= insts@);
    let ghost bv = body@;
    let mut nodes: Vec<Node> = Vec::new();
    nodes.push(Node::Rep { count: rounds, body });
    proof {
        let v = nodes_view(nodes@);
        assert(nodes@.drop_last() =~= Seq::<Node>::empty());
        assert(v.drop_last() =~= nodes_view(Seq::<Node>::empty()));
        assert(v.last() == node_view(nodes@[0]));
        assert(node_view(nodes@[0]) == crate::program::NodeV::Rep { count: rounds, body: nodes_view(bv) });
        assert(v.len() == 1);
        assert(crate::machine::flatten(v.drop_last()) =~= Seq::<Inst>::empty());
        assert(crate::machine::flatten_node(v.last()) == repeat(leaves(bv), rounds as nat));
        assert(crate::machine::flatten(v) == crate::machine::flatten(v.drop_last()) + crate::machine::flatten_node(v.last()));
        assert(leaves(nodes@) =~= repeat(leaves(bv), rounds as nat));
    }
    Program { nodes, nregs: 16 }
}

fn cipher_state(w: &[u64; 4], key: &[u64; 4], counter: u64) -> (s: State)
    ensures
        s@ == cipher_init(w@, key@, counter),
{
    let mut s = State::new(16, 0);
    let mut i: usize = 0;
    while i < 4
        invariant
            i <= 4,
            s@.regs.len() == 16,
            s@.mem == Seq::<u64>::empty(),
            forall|j: int| 0 <= j < i ==> s@.regs[j] == w@[j] && s@.regs[j + 4] == key@[j],
            forall|j: int| 8 <= j < 16 ==> s@.regs[j] == 0,
        decreases 4 - i,
    {
        s.regs.set(i, w[i]);
        s.regs.set(i + 4, key[i]);
        i += 1;
    }
    s.regs.set(8, counter);
    assert(s@.regs =~= cipher_init(w@, key@, counter).regs);
    assert(s@.mem =~= cipher_init(w@, key@, counter).mem);
    s
}

fn block_of(s: &State) -> (b: [u64; 4])
    requires
        s@.regs.len() >= 4,
    ensures
        b@ == s@.regs.take(4),
{
    let b = [s.regs[0], s.regs[1], s.regs[2], s.regs[3]];
    assert(b@ =~= s@.regs.take(4));
    b
}

/// Encrypt: the forward run of the kernel from (pt, key, counter 0).
pub fn pc1_encrypt(pt: [u64; 4], key: [u64; 4], rounds: u64) -> (r: Result<[u64; 4], String>)
    requires
        18 * rounds <= u64::MAX,
    ensures
        r is Ok,
        r->Ok_0@ == encrypt_spec(pt@, key@, rounds as nat),
{
    let kernel = pc1_kernel(rounds);
    let mut s = cipher_state(&pt, &key, 0);
    proof {
        crate::machine::lemma_repeat_len(round_body(), rounds as nat);
        assert(round_body().len() == 18);
        assert(rounds * 18 == 18 * rounds) by (nonlinear_arith);
        lemma_rounds(rounds as nat, s@);
    }
    match run_forward(&mut s, &kernel.nodes) {
        Ok(_) => {},
        Err(e) => {
            return Err(e);
        },
    }
    Ok(block_of(&s))
}

/// Decrypt: the backward run of the kernel from (ct, key, counter = rounds).
/// No log is kept or needed.
pub fn pc1_decrypt(ct: [u64; 4], key: [u64; 4], rounds: u64) -> (r: Result<[u64; 4], String>)
    ensures
        r is Ok,
        r->Ok_0@ == decrypt_spec(ct@, key@, rounds as nat),
{
    let kernel = pc1_kernel(rounds);
    let mut s = cipher_state(&ct, &key, rounds);
    proof {
        lemma_repeat_simple(rounds as nat);
        let rl = repeat(round_body(), rounds as nat).reverse();
        assert(all_simple(rl)) by {
            let ls = repeat(round_body(), rounds as nat);
            assert forall|k: int| 0 <= k < rl.len() implies simple(#[trigger] rl[k]) by {
                assert(rl[k] == ls[ls.len() - 1 - k]);
            }
        }
        lemma_rollback_simple(rl, s@, u64::MAX as nat);
    }
    match reverse_all(&mut s, &kernel.nodes) {
        Ok(_) => {},
        Err(e) => {
            return Err(e);
        },
    }
    proof {
        assert(s@.regs.len() >= 4) by {
            lemma_rollback_len(repeat(round_body(), rounds as nat).reverse(), cipher_init(ct@, key@, rounds), u64::MAX as nat);
        }
    }
    Ok(block_of(&s))
}

// ---------------------------------------------------------------- proofs

/// A register-only, non-aliasing instruction over 16 registers.
spec fn simple(i: Inst) -> bool {
    match i {
        Inst::Xor(a, b) | Inst::Add(a, b) | Inst::Sub(a, b) => a < 16 && b < 16 && a != b,
        Inst::RotL(r, _) | Inst::RotR(r, _) | Inst::Inc(r) | Inst::Dec(r) => r < 16,
        _ => false,
    }
}

/// The register a simple instruction writes.
spec fn dest(i: Inst) -> int {
    match i {
        Inst::Xor(a, _) | Inst::Add(a, _) | Inst::Sub(a, _) => a as int,
        Inst::RotL(r, _) | Inst::RotR(r, _) | Inst::Inc(r) | Inst::Dec(r) => r as int,
        _ => -1,
    }
}

spec fn all_simple(ls: Seq<Inst>) -> bool {
    forall|k: int| 0 <= k < ls.len() ==> simple(#[trigger] ls[k])
}

proof fn lemma_simple_step(i: Inst, s: StateV)
    requires
        simple(i),
        s.regs.len() == 16,
    ensures
        step(i, s) is Some,
        step(i, s).unwrap().regs.len() == 16,
        step(i, s).unwrap().mem == s.mem,
        forall|j: int| 0 <= j < 16 && j != dest(i) ==> #[trigger] step(i, s).unwrap().regs[j] == s.regs[j],
        invertible(i),
        simple(inverse_spec(i).unwrap()),
{
}

proof fn lemma_run_simple(ls: Seq<Inst>, s: StateV)
    requires
        all_simple(ls),
        s.regs.len() == 16,
    ensures
        run_spec(ls, s).ok,
        run_spec(ls, s).state.regs.len() == 16,
        run_spec(ls, s).state.mem == s.mem,
    decreases ls.len(),
{
    if ls.len() > 0 {
        let d = ls.drop_last();
        assert(all_simple(d)) by {
            assert forall|k: int| 0 <= k < d.len() implies simple(#[trigger] d[k]) by {
                assert(d[k] == ls[k]);
            }
        }
        lemma_run_simple(d, s);
        lemma_simple_step(ls.last(), run_spec(d, s).state);
    }
}

/// Registers no instruction writes keep their value.
proof fn lemma_run_frame(ls: Seq<Inst>, s: StateV, j: int)
    requires
        all_simple(ls),
        s.regs.len() == 16,
        0 <= j < 16,
        forall|k: int| 0 <= k < ls.len() ==> dest(#[trigger] ls[k]) != j,
    ensures
        run_spec(ls, s).state.regs[j] == s.regs[j],
    decreases ls.len(),
{
    if ls.len() > 0 {
        let d = ls.drop_last();
        assert(all_simple(d)) by {
            assert forall|k: int| 0 <= k < d.len() implies simple(#[trigger] d[k]) by {
                assert(d[k] == ls[k]);
            }
        }
        assert forall|k: int| 0 <= k < d.len() implies dest(#[trigger] d[k]) != j by {
            assert(d[k] == ls[k]);
        }
        lemma_run_frame(d, s, j);
        lemma_run_simple(d, s);
        lemma_simple_step(ls.last(), run_spec(d, s).state);
        assert(dest(ls.last()) != j) by {
            assert(ls.last() == ls[ls.len() - 1]);
        }
    }
}

/// One round keeps the key, r9..r15 and memory, and advances the counter.
proof fn lemma_round(s: StateV)
    requires
        s.regs.len() == 16,
    ensures
        ({
            let t = run_spec(round_body(), s);
            &&& t.ok
            &&& t.state.regs.len() == 16
            &&& t.state.mem == s.mem
            &&& forall|j: int| (4 <= j < 8 || 9 <= j < 16) ==> #[trigger] t.state.regs[j] == s.regs[j]
            &&& t.state.regs[8] == wadd(s.regs[8], 1)
        }),
{
    let b = round_body();
    assert(all_simple(b));
    lemma_run_simple(b, s);
    assert forall|j: int| (4 <= j < 8 || 9 <= j < 16) implies #[trigger] run_spec(b, s).state.regs[j] == s.regs[j] by {
        assert forall|k: int| 0 <= k < b.len() implies dest(#[trigger] b[k]) != j by {}
        lemma_run_frame(b, s, j);
    }
    let d = b.drop_last();
    assert(all_simple(d));
    assert forall|k: int| 0 <= k < d.len() implies dest(#[trigger] d[k]) != 8 by {}
    lemma_run_frame(d, s, 8);
    lemma_run_simple(d, s);
    assert(b.last() == Inst::Inc(8));
}

/// `k` rounds keep the key, r9..r15 and memory, and add `k` to the counter.
proof fn lemma_rounds(k: nat, s: StateV)
    requires
        s.regs.len() == 16,
        s.regs[8] + k <= u64::MAX,
    ensures
        ({
            let t = run_spec(repeat(round_body(), k), s);
            &&& t.ok
            &&& t.state.regs.len() == 16
            &&& t.state.mem == s.mem
            &&& forall|j: int| (4 <= j < 8 || 9 <= j < 16) ==> #[trigger] t.state.regs[j] == s.regs[j]
            &&& t.state.regs[8] == s.regs[8] + k
        }),
    decreases k,
{
    if k > 0 {
        let p = repeat(round_body(), (k - 1) as nat);
        lemma_rounds((k - 1) as nat, s);
        lemma_run_concat(p, round_body(), s);
        let m = run_spec(p, s).state;
        lemma_round(m);
    }
}

proof fn lemma_repeat_simple(k: nat)
    ensures
        all_simple(repeat(round_body(), k)),
    decreases k,
{
    if k > 0 {
        lemma_repeat_simple((k - 1) as nat);
        let p = repeat(round_body(), (k - 1) as nat);
        let b = round_body();
        assert(all_simple(b));
        assert forall|i: int| 0 <= i < (p + b).len() implies simple(#[trigger] (p + b)[i]) by {
            if i < p.len() {
                assert((p + b)[i] == p[i]);
            } else {
                assert((p + b)[i] == b[i - p.len()]);
            }
        }
    }
}

/// A rollback over simple instructions never fails on its operands.
proof fn lemma_rollback_simple(rl: Seq<Inst>, s: StateV, n: nat)
    requires
        all_simple(rl),
        s.regs.len() == 16,
    ensures
        !rollback_spec(rl, s, n).err,
    decreases rl.len(),
{
    if rl.len() > 0 && n > 0 {
        lemma_simple_step(rl[0], s);
        let j = inverse_spec(rl[0]).unwrap();
        lemma_simple_step(j, s);
        let d = rl.drop_first();
        assert(all_simple(d)) by {
            assert forall|k: int| 0 <= k < d.len() implies simple(#[trigger] d[k]) by {
                assert(d[k] == rl[k + 1]);
            }
        }
        lemma_rollback_simple(d, step(j, s).unwrap(), (n - 1) as nat);
    }
}

proof fn lemma_rollback_len(rl: Seq<Inst>, s: StateV, n: nat)
    requires
        all_simple(rl),
        s.regs.len() == 16,
    ensures
        rollback_spec(rl, s, n).state.regs.len() == 16,
    decreases rl.len(),
{
    if rl.len() > 0 && n > 0 {
        lemma_simple_step(rl[0], s);
        let j = inverse_spec(rl[0]).unwrap();
        lemma_simple_step(j, s);
        let d = rl.drop_first();
        assert(all_simple(d)) by {
            assert forall|k: int| 0 <= k < d.len() implies simple(#[trigger] d[k]) by {
                assert(d[k] == rl[k + 1]);
            }
        }
        lemma_rollback_len(d, step(j, s).unwrap(), (n - 1) as nat);
    }
}

/// Law: decryption undoes encryption, `decrypt(encrypt(pt)) == pt`, for every
/// block and key (with room for the forward run's leaf count).
pub proof fn law_pc1_roundtrip(pt: Seq<u64>, key: Seq<u64>, rounds: nat)
    requires
        pt.len() == 4,
        key.len() == 4,
        18 * rounds <= u64::MAX,
    ensures
        decrypt_spec(encrypt_spec(pt, key, rounds), key, rounds) == pt,
{
    let ls = repeat(round_body(), rounds);
    let s0 = cipher_init(pt, key, 0);
    assert(s0.regs[8] == 0);
    lemma_rounds(rounds, s0);
    let f = run_spec(ls, s0).state;
    let ct = f.regs.take(4);
    assert(cipher_init(ct, key, rounds as u64).regs =~= f.regs) by {
        assert forall|j: int| 4 <= j < 8 implies f.regs[j] == key[j - 4] by {
            assert(f.regs[j] == s0.regs[j]);
        }
        assert forall|j: int| 9 <= j < 16 implies f.regs[j] == 0 by {
            assert(f.regs[j] == s0.regs[j]);
        }
    }
    assert(cipher_init(ct, key, rounds as u64).mem =~= f.mem);
    assert(cipher_init(ct, key, rounds as u64) == f);
    lemma_repeat_simple(rounds);
    assert forall|i: int| 0 <= i < ls.len() implies invertible(#[trigger] ls[i]) by {
        lemma_simple_step(ls[i], s0);
    }
    crate::machine::lemma_repeat_len(round_body(), rounds);
    assert(round_body().len() == 18);
    assert(rounds * 18 == 18 * rounds) by (nonlinear_arith);
    law_roundtrip(ls, s0, u64::MAX as nat);
    assert(s0.regs.take(4) =~= pt);
}

} // verus!
