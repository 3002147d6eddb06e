use vstd::prelude::*;

use crate::bit_board::BitBoard;
use crate::fen::{decimal_value, fields, lemma_fields_three};
use crate::graph_boards::hexagonal_board::hexagonal_tile;
use crate::piece_set::{flipped, lemma_flip_contains, Color};
use crate::position::{fen_scan, fen_scan_ok, position_from_chars, position_string_ok, scan_marks, Position};
use crate::zobrist::ZobristTable;

verus! {

/// The traditional starting position string is a valid position string.
#[verifier::rlimit(50)]
proof fn lemma_traditional_string_ok()
    ensures
        position_string_ok("RNBQKBNRPPPPPPPP32pppppppprnbqkbnr w -"@),
{
    reveal_strlit("RNBQKBNRPPPPPPPP32pppppppprnbqkbnr w -");
    reveal_strlit("RNBQKBNRPPPPPPPP32pppppppprnbqkbnr");
    reveal_strlit("w");
    reveal_strlit("-");
    let s = "RNBQKBNRPPPPPPPP32pppppppprnbqkbnr w -"@;
    let p = "RNBQKBNRPPPPPPPP32pppppppprnbqkbnr"@;
    let w = "w"@;
    let e = "-"@;
    assert(s =~= p.push(' ') + w + seq![' '] + e);
    assert(!p.contains(' '));
    assert(!w.contains(' '));
    assert(!e.contains(' '));
    lemma_fields_three(p, w, e, ' ');
    assert(e =~= seq!['-']);
    assert(forall|i: int| 0 <= i < p.len() ==> (#[trigger] p[i]) < 128 as char);
    assert(decimal_value(Seq::<char>::empty()) == 0);
    assert(seq!['3'].drop_last() =~= Seq::<char>::empty());
    assert(decimal_value(seq!['3']) == 3);
    assert(seq!['3', '2'].drop_last() =~= seq!['3']);
    assert(decimal_value(seq!['3', '2']) == 32);
    assert(decimal_value(Seq::<char>::empty()) == 0);
    assert(scan_marks(Seq::<char>::empty()).0 == 0);
    assert(scan_marks(Seq::<char>::empty()).1 =~= Seq::<char>::empty());
    assert(fen_scan_ok(Seq::<char>::empty()));
    assert(p.take(0) =~= Seq::<char>::empty());
    assert(p.take(1).drop_last() =~= p.take(0));
    assert(p.take(1).last() == 'R');
    assert(scan_marks(p.take(1)).0 == 1);
    assert(scan_marks(p.take(1)).1 =~= Seq::<char>::empty());
    assert(fen_scan_ok(p.take(1)));
    assert(p.take(2).drop_last() =~= p.take(1));
    assert(p.take(2).last() == 'N');
    assert(scan_marks(p.take(2)).0 == 2);
    assert(scan_marks(p.take(2)).1 =~= Seq::<char>::empty());
    assert(fen_scan_ok(p.take(2)));
    assert(p.take(3).drop_last() =~= p.take(2));
    assert(p.take(3).last() == 'B');
    assert(scan_marks(p.take(3)).0 == 3);
    assert(scan_marks(p.take(3)).1 =~= Seq::<char>::empty());
    assert(fen_scan_ok(p.take(3)));
    assert(p.take(4).drop_last() =~= p.take(3));
    assert(p.take(4).last() == 'Q');
    assert(scan_marks(p.take(4)).0 == 4);
    assert(scan_marks(p.take(4)).1 =~= Seq::<char>::empty());
    assert(fen_scan_ok(p.take(4)));
    assert(p.take(5).drop_last() =~= p.take(4));
    assert(p.take(5).last() == 'K');
    assert(scan_marks(p.take(5)).0 == 5);
    assert(scan_marks(p.take(5)).1 =~= Seq::<char>::empty());
    assert(fen_scan_ok(p.take(5)));
    assert(p.take(6).drop_last() =~= p.take(5));
    assert(p.take(6).last() == 'B');
    assert(scan_marks(p.take(6)).0 == 6);
    assert(scan_marks(p.take(6)).1 =~= Seq::<char>::empty());
    assert(fen_scan_ok(p.take(6)));
    assert(p.take(7).drop_last() =~= p.take(6));
    assert(p.take(7).last() == 'N');
    assert(scan_marks(p.take(7)).0 == 7);
    assert(scan_marks(p.take(7)).1 =~= Seq::<char>::empty());
    assert(fen_scan_ok(p.take(7)));
    assert(p.take(8).drop_last() =~= p.take(7));
    assert(p.take(8).last() == 'R');
    assert(scan_marks(p.take(8)).0 == 8);
    assert(scan_marks(p.take(8)).1 =~= Seq::<char>::empty());
    assert(fen_scan_ok(p.take(8)));
    assert(p.take(9).drop_last() =~= p.take(8));
    assert(p.take(9).last() == 'P');
    assert(scan_marks(p.take(9)).0 == 9);
    assert(scan_marks(p.take(9)).1 =~= Seq::<char>::empty());
    assert(fen_scan_ok(p.take(9)));
    assert(p.take(10).drop_last() =~= p.take(9));
    assert(p.take(10).last() == 'P');
    assert(scan_marks(p.take(10)).0 == 10);
    assert(scan_marks(p.take(10)).1 =~= Seq::<char>::empty());
    assert(fen_scan_ok(p.take(10)));
    assert(p.take(11).drop_last() =~= p.take(10));
    assert(p.take(11).last() == 'P');
    assert(scan_marks(p.take(11)).0 == 11);
    assert(scan_marks(p.take(11)).1 =~= Seq::<char>::empty());
    assert(fen_scan_ok(p.take(11)));
    assert(p.take(12).drop_last() =~= p.take(11));
    assert(p.take(12).last() == 'P');
    assert(scan_marks(p.take(12)).0 == 12);
    assert(scan_marks(p.take(12)).1 =~= Seq::<char>::empty());
    assert(fen_scan_ok(p.take(12)));
    assert(p.take(13).drop_last() =~= p.take(12));
    assert(p.take(13).last() == 'P');
    assert(scan_marks(p.take(13)).0 == 13);
    assert(scan_marks(p.take(13)).1 =~= Seq::<char>::empty());
    assert(fen_scan_ok(p.take(13)));
    assert(p.take(14).drop_last() =~= p.take(13));
    assert(p.take(14).last() == 'P');
    assert(scan_marks(p.take(14)).0 == 14);
    assert(scan_marks(p.take(14)).1 =~= Seq::<char>::empty());
    assert(fen_scan_ok(p.take(14)));
    assert(p.take(15).drop_last() =~= p.take(14));
    assert(p.take(15).last() == 'P');
    assert(scan_marks(p.take(15)).0 == 15);
    assert(scan_marks(p.take(15)).1 =~= Seq::<char>::empty());
    assert(fen_scan_ok(p.take(15)));
    assert(p.take(16).drop_last() =~= p.take(15));
    assert(p.take(16).last() == 'P');
    assert(scan_marks(p.take(16)).0 == 16);
    assert(scan_marks(p.take(16)).1 =~= Seq::<char>::empty());
    assert(fen_scan_ok(p.take(16)));
    assert(p.take(17).drop_last() =~= p.take(16));
    assert(p.take(17).last() == '3');
    assert(scan_marks(p.take(17)).0 == 16);
    assert(scan_marks(p.take(17)).1 =~= seq!['3']);
    assert(fen_scan_ok(p.take(17)));
    assert(p.take(18).drop_last() =~= p.take(17));
    assert(p.take(18).last() == '2');
    assert(scan_marks(p.take(18)).0 == 16);
    assert(scan_marks(p.take(18)).1 =~= seq!['3', '2']);
    assert(fen_scan_ok(p.take(18)));
    assert(p.take(19).drop_last() =~= p.take(18));
    assert(p.take(19).last() == 'p');
    assert(scan_marks(p.take(19)).0 == 49);
    assert(scan_marks(p.take(19)).1 =~= Seq::<char>::empty());
    assert(fen_scan_ok(p.take(19)));
    assert(p.take(20).drop_last() =~= p.take(19));
    assert(p.take(20).last() == 'p');
    assert(scan_marks(p.take(20)).0 == 50);
    assert(scan_marks(p.take(20)).1 =~= Seq::<char>::empty());
    assert(fen_scan_ok(p.take(20)));
    assert(p.take(21).drop_last() =~= p.take(20));
    assert(p.take(21).last() == 'p');
    assert(scan_marks(p.take(21)).0 == 51);
    assert(scan_marks(p.take(21)).1 =~= Seq::<char>::empty());
    assert(fen_scan_ok(p.take(21)));
    assert(p.take(22).drop_last() =~= p.take(21));
    assert(p.take(22).last() == 'p');
    assert(scan_marks(p.take(22)).0 == 52);
    assert(scan_marks(p.take(22)).1 =~= Seq::<char>::empty());
    assert(fen_scan_ok(p.take(22)));
    assert(p.take(23).drop_last() =~= p.take(22));
    assert(p.take(23).last() == 'p');
    assert(scan_marks(p.take(23)).0 == 53);
    assert(scan_marks(p.take(23)).1 =~= Seq::<char>::empty());
    assert(fen_scan_ok(p.take(23)));
    assert(p.take(24).drop_last() =~= p.take(23));
    assert(p.take(24).last() == 'p');
    assert(scan_marks(p.take(24)).0 == 54);
    assert(scan_marks(p.take(24)).1 =~= Seq::<char>::empty());
    assert(fen_scan_ok(p.take(24)));
    assert(p.take(25).drop_last() =~= p.take(24));
    assert(p.take(25).last() == 'p');
    assert(scan_marks(p.take(25)).0 == 55);
    assert(scan_marks(p.take(25)).1 =~= Seq::<char>::empty());
    assert(fen_scan_ok(p.take(25)));
    assert(p.take(26).drop_last() =~= p.take(25));
    assert(p.take(26).last() == 'p');
    assert(scan_marks(p.take(26)).0 == 56);
    assert(scan_marks(p.take(26)).1 =~= Seq::<char>::empty());
    assert(fen_scan_ok(p.take(26)));
    assert(p.take(27).drop_last() =~= p.take(26));
    assert(p.take(27).last() == 'r');
    assert(scan_marks(p.take(27)).0 == 57);
    assert(scan_marks(p.take(27)).1 =~= Seq::<char>::empty());
    assert(fen_scan_ok(p.take(27)));
    assert(p.take(28).drop_last() =~= p.take(27));
    assert(p.take(28).last() == 'n');
    assert(scan_marks(p.take(28)).0 == 58);
    assert(scan_marks(p.take(28)).1 =~= Seq::<char>::empty());
    assert(fen_scan_ok(p.take(28)));
    assert(p.take(29).drop_last() =~= p.take(28));
    assert(p.take(29).last() == 'b');
    assert(scan_marks(p.take(29)).0 == 59);
    assert(scan_marks(p.take(29)).1 =~= Seq::<char>::empty());
    assert(fen_scan_ok(p.take(29)));
    assert(p.take(30).drop_last() =~= p.take(29));
    assert(p.take(30).last() == 'q');
    assert(scan_marks(p.take(30)).0 == 60);
    assert(scan_marks(p.take(30)).1 =~= Seq::<char>::empty());
    assert(fen_scan_ok(p.take(30)));
    assert(p.take(31).drop_last() =~= p.take(30));
    assert(p.take(31).last() == 'k');
    assert(scan_marks(p.take(31)).0 == 61);
    assert(scan_marks(p.take(31)).1 =~= Seq::<char>::empty());
    assert(fen_scan_ok(p.take(31)));
    assert(p.take(32).drop_last() =~= p.take(31));
    assert(p.take(32).last() == 'b');
    assert(scan_marks(p.take(32)).0 == 62);
    assert(scan_marks(p.take(32)).1 =~= Seq::<char>::empty());
    assert(fen_scan_ok(p.take(32)));
    assert(p.take(33).drop_last() =~= p.take(32));
    assert(p.take(33).last() == 'n');
    assert(scan_marks(p.take(33)).0 == 63);
    assert(scan_marks(p.take(33)).1 =~= Seq::<char>::empty());
    assert(fen_scan_ok(p.take(33)));
    assert(p.take(34).drop_last() =~= p.take(33));
    assert(p.take(34).last() == 'r');
    assert(scan_marks(p.take(34)).0 == 64);
    assert(scan_marks(p.take(34)).1 =~= Seq::<char>::empty());
    assert(fen_scan_ok(p.take(34)));
    assert(p.take(34) =~= p);
}

/// The hexagonal starting position string is a valid position string.
#[verifier::rlimit(50)]
proof fn lemma_hexagonal_string_ok()
    ensures
        position_string_ok("BKNRP1QB2P2N1B1P3R3P4PPPPP21ppppp4p3r3p1b1n2p2bq1prnkb w -"@),
{
    reveal_strlit("BKNRP1QB2P2N1B1P3R3P4PPPPP21ppppp4p3r3p1b1n2p2bq1prnkb w -");
    reveal_strlit("BKNRP1QB2P2N1B1P3R3P4PPPPP21ppppp4p3r3p1b1n2p2bq1prnkb");
    reveal_strlit("w");
    reveal_strlit("-");
    let s = "BKNRP1QB2P2N1B1P3R3P4PPPPP21ppppp4p3r3p1b1n2p2bq1prnkb w -"@;
    let p = "BKNRP1QB2P2N1B1P3R3P4PPPPP21ppppp4p3r3p1b1n2p2bq1prnkb"@;
    let w = "w"@;
    let e = "-"@;
    assert(s =~= p.push(' ') + w + seq![' '] + e);
    assert(!p.contains(' '));
    assert(!w.contains(' '));
    assert(!e.contains(' '));
    lemma_fields_three(p, w, e, ' ');
    assert(e =~= seq!['-']);
    assert(forall|i: int| 0 <= i < p.len() ==> (#[trigger] p[i]) < 128 as char);
    assert(decimal_value(Seq::<char>::empty()) == 0);
    assert(seq!['1'].drop_last() =~= Seq::<char>::empty());
    assert(decimal_value(seq!['1']) == 1);
    assert(seq!['2'].drop_last() =~= Seq::<char>::empty());
    assert(decimal_value(seq!['2']) == 2);
    assert(seq!['3'].drop_last() =~= Seq::<char>::empty());
    assert(decimal_value(seq!['3']) == 3);
    assert(seq!['4'].drop_last() =~= Seq::<char>::empty());
    assert(decimal_value(seq!['4']) == 4);
    assert(seq!['2'].drop_last() =~= Seq::<char>::empty());
    assert(decimal_value(seq!['2']) == 2);
    assert(seq!['2', '1'].drop_last() =~= seq!['2']);
    assert(decimal_value(seq!['2', '1']) == 21);
    assert(decimal_value(Seq::<char>::empty()) == 0);
    assert(scan_marks(Seq::<char>::empty()).0 == 0);
    assert(scan_marks(Seq::<char>::empty()).1 =~= Seq::<char>::empty());
    assert(fen_scan_ok(Seq::<char>::empty()));
    assert(p.take(0) =~= Seq::<char>::empty());
    assert(p.take(1).drop_last() =~= p.take(0));
    assert(p.take(1).last() == 'B');
    assert(scan_marks(p.take(1)).0 == 1);
    assert(scan_marks(p.take(1)).1 =~= Seq::<char>::empty());
    assert(fen_scan_ok(p.take(1)));
    assert(p.take(2).drop_last() =~= p.take(1));
    assert(p.take(2).last() == 'K');
    assert(scan_marks(p.take(2)).0 == 2);
    assert(scan_marks(p.take(2)).1 =~= Seq::<char>::empty());
    assert(fen_scan_ok(p.take(2)));
    assert(p.take(3).drop_last() =~= p.take(2));
    assert(p.take(3).last() == 'N');
    assert(scan_marks(p.take(3)).0 == 3);
    assert(scan_marks(p.take(3)).1 =~= Seq::<char>::empty());
    assert(fen_scan_ok(p.take(3)));
    assert(p.take(4).drop_last() =~= p.take(3));
    assert(p.take(4).last() == 'R');
    assert(scan_marks(p.take(4)).0 == 4);
    assert(scan_marks(p.take(4)).1 =~= Seq::<char>::empty());
    assert(fen_scan_ok(p.take(4)));
    assert(p.take(5).drop_last() =~= p.take(4));
    assert(p.take(5).last() == 'P');
    assert(scan_marks(p.take(5)).0 == 5);
    assert(scan_marks(p.take(5)).1 =~= Seq::<char>::empty());
    assert(fen_scan_ok(p.take(5)));
    assert(p.take(6).drop_last() =~= p.take(5));
    assert(p.take(6).last() == '1');
    assert(scan_marks(p.take(6)).0 == 5);
    assert(scan_marks(p.take(6)).1 =~= seq!['1']);
    assert(fen_scan_ok(p.take(6)));
    assert(p.take(7).drop_last() =~= p.take(6));
    assert(p.take(7).last() == 'Q');
    assert(scan_marks(p.take(7)).0 == 7);
    assert(scan_marks(p.take(7)).1 =~= Seq::<char>::empty());
    assert(fen_scan_ok(p.take(7)));
    assert(p.take(8).drop_last() =~= p.take(7));
    assert(p.take(8).last() == 'B');
    assert(scan_marks(p.take(8)).0 == 8);
    assert(scan_marks(p.take(8)).1 =~= Seq::<char>::empty());
    assert(fen_scan_ok(p.take(8)));
    assert(p.take(9).drop_last() =~= p.take(8));
    assert(p.take(9).last() == '2');
    assert(scan_marks(p.take(9)).0 == 8);
    assert(scan_marks(p.take(9)).1 =~= seq!['2']);
    assert(fen_scan_ok(p.take(9)));
    assert(p.take(10).drop_last() =~= p.take(9));
    assert(p.take(10).last() == 'P');
    assert(scan_marks(p.take(10)).0 == 11);
    assert(scan_marks(p.take(10)).1 =~= Seq::<char>::empty());
    assert(fen_scan_ok(p.take(10)));
    assert(p.take(11).drop_last() =~= p.take(10));
    assert(p.take(11).last() == '2');
    assert(scan_marks(p.take(11)).0 == 11);
    assert(scan_marks(p.take(11)).1 =~= seq!['2']);
    assert(fen_scan_ok(p.take(11)));
    assert(p.take(12).drop_last() =~= p.take(11));
    assert(p.take(12).last() == 'N');
    assert(scan_marks(p.take(12)).0 == 14);
    assert(scan_marks(p.take(12)).1 =~= Seq::<char>::empty());
    assert(fen_scan_ok(p.take(12)));
    assert(p.take(13).drop_last() =~= p.take(12));
    assert(p.take(13).last() == '1');
    assert(scan_marks(p.take(13)).0 == 14);
    assert(scan_marks(p.take(13)).1 =~= seq!['1']);
    assert(fen_scan_ok(p.take(13)));
    assert(p.take(14).drop_last() =~= p.take(13));
    assert(p.take(14).last() == 'B');
    assert(scan_marks(p.take(14)).0 == 16);
    assert(scan_marks(p.take(14)).1 =~= Seq::<char>::empty());
    assert(fen_scan_ok(p.take(14)));
    assert(p.take(15).drop_last() =~= p.take(14));
    assert(p.take(15).last() == '1');
    assert(scan_marks(p.take(15)).0 == 16);
    assert(scan_marks(p.take(15)).1 =~= seq!['1']);
    assert(fen_scan_ok(p.take(15)));
    assert(p.take(16).drop_last() =~= p.take(15));
    assert(p.take(16).last() == 'P');
    assert(scan_marks(p.take(16)).0 == 18);
    assert(scan_marks(p.take(16)).1 =~= Seq::<char>::empty());
    assert(fen_scan_ok(p.take(16)));
    assert(p.take(17).drop_last() =~= p.take(16));
    assert(p.take(17).last() == '3');
    assert(scan_marks(p.take(17)).0 == 18);
    assert(scan_marks(p.take(17)).1 =~= seq!['3']);
    assert(fen_scan_ok(p.take(17)));
    assert(p.take(18).drop_last() =~= p.take(17));
    assert(p.take(18).last() == 'R');
    assert(scan_marks(p.take(18)).0 == 22);
    assert(scan_marks(p.take(18)).1 =~= Seq::<char>::empty());
    assert(fen_scan_ok(p.take(18)));
    assert(p.take(19).drop_last() =~= p.take(18));
    assert(p.take(19).last() == '3');
    assert(scan_marks(p.take(19)).0 == 22);
    assert(scan_marks(p.take(19)).1 =~= seq!['3']);
    assert(fen_scan_ok(p.take(19)));
    assert(p.take(20).drop_last() =~= p.take(19));
    assert(p.take(20).last() == 'P');
    assert(scan_marks(p.take(20)).0 == 26);
    assert(scan_marks(p.take(20)).1 =~= Seq::<char>::empty());
    assert(fen_scan_ok(p.take(20)));
    assert(p.take(21).drop_last() =~= p.take(20));
    assert(p.take(21).last() == '4');
    assert(scan_marks(p.take(21)).0 == 26);
    assert(scan_marks(p.take(21)).1 =~= seq!['4']);
    assert(fen_scan_ok(p.take(21)));
    assert(p.take(22).drop_last() =~= p.take(21));
    assert(p.take(22).last() == 'P');
    assert(scan_marks(p.take(22)).0 == 31);
    assert(scan_marks(p.take(22)).1 =~= Seq::<char>::empty());
    assert(fen_scan_ok(p.take(22)));
    assert(p.take(23).drop_last() =~= p.take(22));
    assert(p.take(23).last() == 'P');
    assert(scan_marks(p.take(23)).0 == 32);
    assert(scan_marks(p.take(23)).1 =~= Seq::<char>::empty());
    assert(fen_scan_ok(p.take(23)));
    assert(p.take(24).drop_last() =~= p.take(23));
    assert(p.take(24).last() == 'P');
    assert(scan_marks(p.take(24)).0 == 33);
    assert(scan_marks(p.take(24)).1 =~= Seq::<char>::empty());
    assert(fen_scan_ok(p.take(24)));
    assert(p.take(25).drop_last() =~= p.take(24));
    assert(p.take(25).last() == 'P');
    assert(scan_marks(p.take(25)).0 == 34);
    assert(scan_marks(p.take(25)).1 =~= Seq::<char>::empty());
    assert(fen_scan_ok(p.take(25)));
    assert(p.take(26).drop_last() =~= p.take(25));
    assert(p.take(26).last() == 'P');
    assert(scan_marks(p.take(26)).0 == 35);
    assert(scan_marks(p.take(26)).1 =~= Seq::<char>::empty());
    assert(fen_scan_ok(p.take(26)));
    assert(p.take(27).drop_last() =~= p.take(26));
    assert(p.take(27).last() == '2');
    assert(scan_marks(p.take(27)).0 == 35);
    assert(scan_marks(p.take(27)).1 =~= seq!['2']);
    assert(fen_scan_ok(p.take(27)));
    assert(p.take(28).drop_last() =~= p.take(27));
    assert(p.take(28).last() == '1');
    assert(scan_marks(p.take(28)).0 == 35);
    assert(scan_marks(p.take(28)).1 =~= seq!['2', '1']);
    assert(fen_scan_ok(p.take(28)));
    assert(p.take(29).drop_last() =~= p.take(28));
    assert(p.take(29).last() == 'p');
    assert(scan_marks(p.take(29)).0 == 57);
    assert(scan_marks(p.take(29)).1 =~= Seq::<char>::empty());
    assert(fen_scan_ok(p.take(29)));
    assert(p.take(30).drop_last() =~= p.take(29));
    assert(p.take(30).last() == 'p');
    assert(scan_marks(p.take(30)).0 == 58);
    assert(scan_marks(p.take(30)).1 =~= Seq::<char>::empty());
    assert(fen_scan_ok(p.take(30)));
    assert(p.take(31).drop_last() =~= p.take(30));
    assert(p.take(31).last() == 'p');
    assert(scan_marks(p.take(31)).0 == 59);
    assert(scan_marks(p.take(31)).1 =~= Seq::<char>::empty());
    assert(fen_scan_ok(p.take(31)));
    assert(p.take(32).drop_last() =~= p.take(31));
    assert(p.take(32).last() == 'p');
    assert(scan_marks(p.take(32)).0 == 60);
    assert(scan_marks(p.take(32)).1 =~= Seq::<char>::empty());
    assert(fen_scan_ok(p.take(32)));
    assert(p.take(33).drop_last() =~= p.take(32));
    assert(p.take(33).last() == 'p');
    assert(scan_marks(p.take(33)).0 == 61);
    assert(scan_marks(p.take(33)).1 =~= Seq::<char>::empty());
    assert(fen_scan_ok(p.take(33)));
    assert(p.take(34).drop_last() =~= p.take(33));
    assert(p.take(34).last() == '4');
    assert(scan_marks(p.take(34)).0 == 61);
    assert(scan_marks(p.take(34)).1 =~= seq!['4']);
    assert(fen_scan_ok(p.take(34)));
    assert(p.take(35).drop_last() =~= p.take(34));
    assert(p.take(35).last() == 'p');
    assert(scan_marks(p.take(35)).0 == 66);
    assert(scan_marks(p.take(35)).1 =~= Seq::<char>::empty());
    assert(fen_scan_ok(p.take(35)));
    assert(p.take(36).drop_last() =~= p.take(35));
    assert(p.take(36).last() == '3');
    assert(scan_marks(p.take(36)).0 == 66);
    assert(scan_marks(p.take(36)).1 =~= seq!['3']);
    assert(fen_scan_ok(p.take(36)));
    assert(p.take(37).drop_last() =~= p.take(36));
    assert(p.take(37).last() == 'r');
    assert(scan_marks(p.take(37)).0 == 70);
    assert(scan_marks(p.take(37)).1 =~= Seq::<char>::empty());
    assert(fen_scan_ok(p.take(37)));
    assert(p.take(38).drop_last() =~= p.take(37));
    assert(p.take(38).last() == '3');
    assert(scan_marks(p.take(38)).0 == 70);
    assert(scan_marks(p.take(38)).1 =~= seq!['3']);
    assert(fen_scan_ok(p.take(38)));
    assert(p.take(39).drop_last() =~= p.take(38));
    assert(p.take(39).last() == 'p');
    assert(scan_marks(p.take(39)).0 == 74);
    assert(scan_marks(p.take(39)).1 =~= Seq::<char>::empty());
    assert(fen_scan_ok(p.take(39)));
    assert(p.take(40).drop_last() =~= p.take(39));
    assert(p.take(40).last() == '1');
    assert(scan_marks(p.take(40)).0 == 74);
    assert(scan_marks(p.take(40)).1 =~= seq!['1']);
    assert(fen_scan_ok(p.take(40)));
    assert(p.take(41).drop_last() =~= p.take(40));
    assert(p.take(41).last() == 'b');
    assert(scan_marks(p.take(41)).0 == 76);
    assert(scan_marks(p.take(41)).1 =~= Seq::<char>::empty());
    assert(fen_scan_ok(p.take(41)));
    assert(p.take(42).drop_last() =~= p.take(41));
    assert(p.take(42).last() == '1');
    assert(scan_marks(p.take(42)).0 == 76);
    assert(scan_marks(p.take(42)).1 =~= seq!['1']);
    assert(fen_scan_ok(p.take(42)));
    assert(p.take(43).drop_last() =~= p.take(42));
    assert(p.take(43).last() == 'n');
    assert(scan_marks(p.take(43)).0 == 78);
    assert(scan_marks(p.take(43)).1 =~= Seq::<char>::empty());
    assert(fen_scan_ok(p.take(43)));
    assert(p.take(44).drop_last() =~= p.take(43));
    assert(p.take(44).last() == '2');
    assert(scan_marks(p.take(44)).0 == 78);
    assert(scan_marks(p.take(44)).1 =~= seq!['2']);
    assert(fen_scan_ok(p.take(44)));
    assert(p.take(45).drop_last() =~= p.take(44));
    assert(p.take(45).last() == 'p');
    assert(scan_marks(p.take(45)).0 == 81);
    assert(scan_marks(p.take(45)).1 =~= Seq::<char>::empty());
    assert(fen_scan_ok(p.take(45)));
    assert(p.take(46).drop_last() =~= p.take(45));
    assert(p.take(46).last() == '2');
    assert(scan_marks(p.take(46)).0 == 81);
    assert(scan_marks(p.take(46)).1 =~= seq!['2']);
    assert(fen_scan_ok(p.take(46)));
    assert(p.take(47).drop_last() =~= p.take(46));
    assert(p.take(47).last() == 'b');
    assert(scan_marks(p.take(47)).0 == 84);
    assert(scan_marks(p.take(47)).1 =~= Seq::<char>::empty());
    assert(fen_scan_ok(p.take(47)));
    assert(p.take(48).drop_last() =~= p.take(47));
    assert(p.take(48).last() == 'q');
    assert(scan_marks(p.take(48)).0 == 85);
    assert(scan_marks(p.take(48)).1 =~= Seq::<char>::empty());
    assert(fen_scan_ok(p.take(48)));
    assert(p.take(49).drop_last() =~= p.take(48));
    assert(p.take(49).last() == '1');
    assert(scan_marks(p.take(49)).0 == 85);
    assert(scan_marks(p.take(49)).1 =~= seq!['1']);
    assert(fen_scan_ok(p.take(49)));
    assert(p.take(50).drop_last() =~= p.take(49));
    assert(p.take(50).last() == 'p');
    assert(scan_marks(p.take(50)).0 == 87);
    assert(scan_marks(p.take(50)).1 =~= Seq::<char>::empty());
    assert(fen_scan_ok(p.take(50)));
    assert(p.take(51).drop_last() =~= p.take(50));
    assert(p.take(51).last() == 'r');
    assert(scan_marks(p.take(51)).0 == 88);
    assert(scan_marks(p.take(51)).1 =~= Seq::<char>::empty());
    assert(fen_scan_ok(p.take(51)));
    assert(p.take(52).drop_last() =~= p.take(51));
    assert(p.take(52).last() == 'n');
    assert(scan_marks(p.take(52)).0 == 89);
    assert(scan_marks(p.take(52)).1 =~= Seq::<char>::empty());
    assert(fen_scan_ok(p.take(52)));
    assert(p.take(53).drop_last() =~= p.take(52));
    assert(p.take(53).last() == 'k');
    assert(scan_marks(p.take(53)).0 == 90);
    assert(scan_marks(p.take(53)).1 =~= Seq::<char>::empty());
    assert(fen_scan_ok(p.take(53)));
    assert(p.take(54).drop_last() =~= p.take(53));
    assert(p.take(54).last() == 'b');
    assert(scan_marks(p.take(54)).0 == 91);
    assert(scan_marks(p.take(54)).1 =~= Seq::<char>::empty());
    assert(fen_scan_ok(p.take(54)));
    assert(p.take(54) =~= p);
}

/// The triangular starting position string is a valid position string.
#[verifier::rlimit(50)]
proof fn lemma_triangular_string_ok()
    ensures
        position_string_ok("RKNP2pnkrQBP3pbqNP4pnP5p21 w -"@),
{
    reveal_strlit("RKNP2pnkrQBP3pbqNP4pnP5p21 w -");
    reveal_strlit("RKNP2pnkrQBP3pbqNP4pnP5p21");
    reveal_strlit("w");
    reveal_strlit("-");
    let s = "RKNP2pnkrQBP3pbqNP4pnP5p21 w -"@;
    let p = "RKNP2pnkrQBP3pbqNP4pnP5p21"@;
    let w = "w"@;
    let e = "-"@;
    assert(s =~= p.push(' ') + w + seq![' '] + e);
    assert(!p.contains(' '));
    assert(!w.contains(' '));
    assert(!e.contains(' '));
    lemma_fields_three(p, w, e, ' ');
    assert(e =~= seq!['-']);
    assert(forall|i: int| 0 <= i < p.len() ==> (#[trigger] p[i]) < 128 as char);
    assert(decimal_value(Seq::<char>::empty()) == 0);
    assert(seq!['3'].drop_last() =~= Seq::<char>::empty());
    assert(decimal_value(seq!['3']) == 3);
    assert(seq!['5'].drop_last() =~= Seq::<char>::empty());
    assert(decimal_value(seq!['5']) == 5);
    assert(seq!['4'].drop_last() =~= Seq::<char>::empty());
    assert(decimal_value(seq!['4']) == 4);
    assert(seq!['2'].drop_last() =~= Seq::<char>::empty());
    assert(decimal_value(seq!['2']) == 2);
    assert(decimal_value(Seq::<char>::empty()) == 0);
    assert(scan_marks(Seq::<char>::empty()).0 == 0);
    assert(scan_marks(Seq::<char>::empty()).1 =~= Seq::<char>::empty());
    assert(fen_scan_ok(Seq::<char>::empty()));
    assert(p.take(0) =~= Seq::<char>::empty());
    assert(p.take(1).drop_last() =~= p.take(0));
    assert(p.take(1).last() == 'R');
    assert(scan_marks(p.take(1)).0 == 1);
    assert(scan_marks(p.take(1)).1 =~= Seq::<char>::empty());
    assert(fen_scan_ok(p.take(1)));
    assert(p.take(2).drop_last() =~= p.take(1));
    assert(p.take(2).last() == 'K');
    assert(scan_marks(p.take(2)).0 == 2);
    assert(scan_marks(p.take(2)).1 =~= Seq::<char>::empty());
    assert(fen_scan_ok(p.take(2)));
    assert(p.take(3).drop_last() =~= p.take(2));
    assert(p.take(3).last() == 'N');
    assert(scan_marks(p.take(3)).0 == 3);
    assert(scan_marks(p.take(3)).1 =~= Seq::<char>::empty());
    assert(fen_scan_ok(p.take(3)));
    assert(p.take(4).drop_last() =~= p.take(3));
    assert(p.take(4).last() == 'P');
    assert(scan_marks(p.take(4)).0 == 4);
    assert(scan_marks(p.take(4)).1 =~= Seq::<char>::empty());
    assert(fen_scan_ok(p.take(4)));
    assert(p.take(5).drop_last() =~= p.take(4));
    assert(p.take(5).last() == '2');
    assert(scan_marks(p.take(5)).0 == 4);
    assert(scan_marks(p.take(5)).1 =~= seq!['2']);
    assert(fen_scan_ok(p.take(5)));
    assert(p.take(6).drop_last() =~= p.take(5));
    assert(p.take(6).last() == 'p');
    assert(scan_marks(p.take(6)).0 == 7);
    assert(scan_marks(p.take(6)).1 =~= Seq::<char>::empty());
    assert(fen_scan_ok(p.take(6)));
    assert(p.take(7).drop_last() =~= p.take(6));
    assert(p.take(7).last() == 'n');
    assert(scan_marks(p.take(7)).0 == 8);
    assert(scan_marks(p.take(7)).1 =~= Seq::<char>::empty());
    assert(fen_scan_ok(p.take(7)));
    assert(p.take(8).drop_last() =~= p.take(7));
    assert(p.take(8).last() == 'k');
    assert(scan_marks(p.take(8)).0 == 9);
    assert(scan_marks(p.take(8)).1 =~= Seq::<char>::empty());
    assert(fen_scan_ok(p.take(8)));
    assert(p.take(9).drop_last() =~= p.take(8));
    assert(p.take(9).last() == 'r');
    assert(scan_marks(p.take(9)).0 == 10);
    assert(scan_marks(p.take(9)).1 =~= Seq::<char>::empty());
    assert(fen_scan_ok(p.take(9)));
    assert(p.take(10).drop_last() =~= p.take(9));
    assert(p.take(10).last() == 'Q');
    assert(scan_marks(p.take(10)).0 == 11);
    assert(scan_marks(p.take(10)).1 =~= Seq::<char>::empty());
    assert(fen_scan_ok(p.take(10)));
    assert(p.take(11).drop_last() =~= p.take(10));
    assert(p.take(11).last() == 'B');
    assert(scan_marks(p.take(11)).0 == 12);
    assert(scan_marks(p.take(11)).1 =~= Seq::<char>::empty());
    assert(fen_scan_ok(p.take(11)));
    assert(p.take(12).drop_last() =~= p.take(11));
    assert(p.take(12).last() == 'P');
    assert(scan_marks(p.take(12)).0 == 13);
    assert(scan_marks(p.take(12)).1 =~= Seq::<char>::empty());
    assert(fen_scan_ok(p.take(12)));
    assert(p.take(13).drop_last() =~= p.take(12));
    assert(p.take(13).last() == '3');
    assert(scan_marks(p.take(13)).0 == 13);
    assert(scan_marks(p.take(13)).1 =~= seq!['3']);
    assert(fen_scan_ok(p.take(13)));
    assert(p.take(14).drop_last() =~= p.take(13));
    assert(p.take(14).last() == 'p');
    assert(scan_marks(p.take(14)).0 == 17);
    assert(scan_marks(p.take(14)).1 =~= Seq::<char>::empty());
    assert(fen_scan_ok(p.take(14)));
    assert(p.take(15).drop_last() =~= p.take(14));
    assert(p.take(15).last() == 'b');
    assert(scan_marks(p.take(15)).0 == 18);
    assert(scan_marks(p.take(15)).1 =~= Seq::<char>::empty());
    assert(fen_scan_ok(p.take(15)));
    assert(p.take(16).drop_last() =~= p.take(15));
    assert(p.take(16).last() == 'q');
    assert(scan_marks(p.take(16)).0 == 19);
    assert(scan_marks(p.take(16)).1 =~= Seq::<char>::empty());
    assert(fen_scan_ok(p.take(16)));
    assert(p.take(17).drop_last() =~= p.take(16));
    assert(p.take(17).last() == 'N');
    assert(scan_marks(p.take(17)).0 == 20);
    assert(scan_marks(p.take(17)).1 =~= Seq::<char>::empty());
    assert(fen_scan_ok(p.take(17)));
    assert(p.take(18).drop_last() =~= p.take(17));
    assert(p.take(18).last() == 'P');
    assert(scan_marks(p.take(18)).0 == 21);
    assert(scan_marks(p.take(18)).1 =~= Seq::<char>::empty());
    assert(fen_scan_ok(p.take(18)));
    assert(p.take(19).drop_last() =~= p.take(18));
    assert(p.take(19).last() == '4');
    assert(scan_marks(p.take(19)).0 == 21);
    assert(scan_marks(p.take(19)).1 =~= seq!['4']);
    assert(fen_scan_ok(p.take(19)));
    assert(p.take(20).drop_last() =~= p.take(19));
    assert(p.take(20).last() == 'p');
    assert(scan_marks(p.take(20)).0 == 26);
    assert(scan_marks(p.take(20)).1 =~= Seq::<char>::empty());
    assert(fen_scan_ok(p.take(20)));
    assert(p.take(21).drop_last() =~= p.take(20));
    assert(p.take(21).last() == 'n');
    assert(scan_marks(p.take(21)).0 == 27);
    assert(scan_marks(p.take(21)).1 =~= Seq::<char>::empty());
    assert(fen_scan_ok(p.take(21)));
    assert(p.take(22).drop_last() =~= p.take(21));
    assert(p.take(22).last() == 'P');
    assert(scan_marks(p.take(22)).0 == 28);
    assert(scan_marks(p.take(22)).1 =~= Seq::<char>::empty());
    assert(fen_scan_ok(p.take(22)));
    assert(p.take(23).drop_last() =~= p.take(22));
    assert(p.take(23).last() == '5');
    assert(scan_marks(p.take(23)).0 == 28);
    assert(scan_marks(p.take(23)).1 =~= seq!['5']);
    assert(fen_scan_ok(p.take(23)));
    assert(p.take(24).drop_last() =~= p.take(23));
    assert(p.take(24).last() == 'p');
    assert(scan_marks(p.take(24)).0 == 34);
    assert(scan_marks(p.take(24)).1 =~= Seq::<char>::empty());
    assert(fen_scan_ok(p.take(24)));
    assert(p.take(25).drop_last() =~= p.take(24));
    assert(p.take(25).last() == '2');
    assert(scan_marks(p.take(25)).0 == 34);
    assert(scan_marks(p.take(25)).1 =~= seq!['2']);
    assert(fen_scan_ok(p.take(25)));
    assert(p.take(26).drop_last() =~= p.take(25));
    assert(p.take(26).last() == '1');
    assert(scan_marks(p.take(26)).0 == 34);
    assert(scan_marks(p.take(26)).1 =~= seq!['2', '1']);
    assert(fen_scan_ok(p.take(26)));
    assert(p.take(26) =~= p);
}

/// The empty board holds no tile.
proof fn lemma_zero_board_empty()
    ensures
        BitBoard(0)@ == Set::<int>::empty(),
{
    assert forall|x: int| !BitBoard(0)@.contains(x) by {
        crate::bits::lemma_has_bit_zero(x);
    }
    assert(BitBoard(0)@ =~= Set::<int>::empty());
}

/// Flipping a tile of a board adds it when absent and removes it when
/// present.
proof fn lemma_flip_view(b: BitBoard, t: int)
    requires
        0 <= t < 128,
    ensures
        flipped(b, t)@ == (if b@.contains(t) {
            b@.remove(t)
        } else {
            b@.insert(t)
        }),
{
    assert forall|x: int| flipped(b, t)@.contains(x) == (if b@.contains(t) {
        b@.remove(t)
    } else {
        b@.insert(t)
    }).contains(x) by {
        lemma_flip_contains(b, t, x);
    }
    assert(flipped(b, t)@ =~= (if b@.contains(t) {
        b@.remove(t)
    } else {
        b@.insert(t)
    }));
}

proof fn lemma_hexagonal_digits()
    ensures
        seq!['3'].drop_last() =~= Seq::<char>::empty(),
        decimal_value(seq!['3']) == 3,
        seq!['4'].drop_last() =~= Seq::<char>::empty(),
        decimal_value(seq!['4']) == 4,
        seq!['1'].drop_last() =~= Seq::<char>::empty(),
        decimal_value(seq!['1']) == 1,
        seq!['2'].drop_last() =~= Seq::<char>::empty(),
        decimal_value(seq!['2']) == 2,
        seq!['2'].drop_last() =~= Seq::<char>::empty(),
        decimal_value(seq!['2']) == 2,
        seq!['2', '1'].drop_last() =~= seq!['2'],
        decimal_value(seq!['2', '1']) == 21,
        decimal_value(Seq::<char>::empty()) == 0,
{
    reveal_with_fuel(decimal_value, 3);
    assert(decimal_value(Seq::<char>::empty()) == 0);
    assert(seq!['3'].drop_last() =~= Seq::<char>::empty());
    assert(decimal_value(seq!['3']) == 3);
    assert(seq!['4'].drop_last() =~= Seq::<char>::empty());
    assert(decimal_value(seq!['4']) == 4);
    assert(seq!['1'].drop_last() =~= Seq::<char>::empty());
    assert(decimal_value(seq!['1']) == 1);
    assert(seq!['2'].drop_last() =~= Seq::<char>::empty());
    assert(decimal_value(seq!['2']) == 2);
    assert(seq!['2'].drop_last() =~= Seq::<char>::empty());
    assert(decimal_value(seq!['2']) == 2);
    assert(seq!['2', '1'].drop_last() =~= seq!['2']);
    assert(decimal_value(seq!['2', '1']) == 21);
    assert(decimal_value(Seq::<char>::empty()) == 0);
}

/// In the hexagonal starting position the white pawns stand exactly on the
/// white pawn-start tiles of the hexagonal board, and the black pawns exactly
/// on the black ones: every pawn of the starting position may step twice.
#[verifier::rlimit(100)]
pub proof fn lemma_hexagonal_start_pawns(keys: ZobristTable)
    ensures
        forall|t: int|
            position_from_chars("BKNRP1QB2P2N1B1P3R3P4PPPPP21ppppp4p3r3p1b1n2p2bq1prnkb w -"@, keys).boards[0][5]@.contains(t) <==> (0 <= t < 91
                && hexagonal_tile(t).1 == Some(Color::White)),
        forall|t: int|
            position_from_chars("BKNRP1QB2P2N1B1P3R3P4PPPPP21ppppp4p3r3p1b1n2p2bq1prnkb w -"@, keys).boards[1][5]@.contains(t) <==> (0 <= t < 91
                && hexagonal_tile(t).1 == Some(Color::Black)),
{
    reveal_strlit("BKNRP1QB2P2N1B1P3R3P4PPPPP21ppppp4p3r3p1b1n2p2bq1prnkb w -");
    reveal_strlit("BKNRP1QB2P2N1B1P3R3P4PPPPP21ppppp4p3r3p1b1n2p2bq1prnkb");
    reveal_strlit("w");
    reveal_strlit("-");
    lemma_hexagonal_digits();
    let s = "BKNRP1QB2P2N1B1P3R3P4PPPPP21ppppp4p3r3p1b1n2p2bq1prnkb w -"@;
    let p = "BKNRP1QB2P2N1B1P3R3P4PPPPP21ppppp4p3r3p1b1n2p2bq1prnkb"@;
    let w = "w"@;
    let e = "-"@;
    assert(s =~= p.push(' ') + w + seq![' '] + e);
    assert(!p.contains(' '));
    assert(!w.contains(' '));
    assert(!e.contains(' '));
    lemma_fields_three(p, w, e, ' ');
    assert(fields(s, ' ')[0] == p);
    assert(p.take(0) =~= Seq::<char>::empty());
    lemma_zero_board_empty();
    assert(fen_scan(p.take(0)).boards[0][5]@ =~= Set::<int>::empty());
    assert(fen_scan(p.take(0)).boards[1][5]@ =~= Set::<int>::empty());
    assert(p.take(1).drop_last() =~= p.take(0));
    assert(p.take(1).last() == 'B');
    assert(fen_scan(p.take(1)).counter == 1);
    assert(fen_scan(p.take(1)).digits =~= Seq::<char>::empty());
    assert(fen_scan(p.take(1)).boards.len() == 2);
    assert(fen_scan(p.take(1)).boards[0].len() == 6 && fen_scan(p.take(1)).boards[1].len() == 6);
    assert(fen_scan(p.take(1)).boards[0][5]@ =~= Set::<int>::empty());
    assert(fen_scan(p.take(1)).boards[1][5]@ =~= Set::<int>::empty());
    assert(p.take(2).drop_last() =~= p.take(1));
    assert(p.take(2).last() == 'K');
    assert(fen_scan(p.take(2)).counter == 2);
    assert(fen_scan(p.take(2)).digits =~= Seq::<char>::empty());
    assert(fen_scan(p.take(2)).boards.len() == 2);
    assert(fen_scan(p.take(2)).boards[0].len() == 6 && fen_scan(p.take(2)).boards[1].len() == 6);
    assert(fen_scan(p.take(2)).boards[0][5]@ =~= Set::<int>::empty());
    assert(fen_scan(p.take(2)).boards[1][5]@ =~= Set::<int>::empty());
    assert(p.take(3).drop_last() =~= p.take(2));
    assert(p.take(3).last() == 'N');
    assert(fen_scan(p.take(3)).counter == 3);
    assert(fen_scan(p.take(3)).digits =~= Seq::<char>::empty());
    assert(fen_scan(p.take(3)).boards.len() == 2);
    assert(fen_scan(p.take(3)).boards[0].len() == 6 && fen_scan(p.take(3)).boards[1].len() == 6);
    assert(fen_scan(p.take(3)).boards[0][5]@ =~= Set::<int>::empty());
    assert(fen_scan(p.take(3)).boards[1][5]@ =~= Set::<int>::empty());
    assert(p.take(4).drop_last() =~= p.take(3));
    assert(p.take(4).last() == 'R');
    assert(fen_scan(p.take(4)).counter == 4);
    assert(fen_scan(p.take(4)).digits =~= Seq::<char>::empty());
    assert(fen_scan(p.take(4)).boards.len() == 2);
    assert(fen_scan(p.take(4)).boards[0].len() == 6 && fen_scan(p.take(4)).boards[1].len() == 6);
    assert(fen_scan(p.take(4)).boards[0][5]@ =~= Set::<int>::empty());
    assert(fen_scan(p.take(4)).boards[1][5]@ =~= Set::<int>::empty());
    assert(p.take(5).drop_last() =~= p.take(4));
    assert(p.take(5).last() == 'P');
    lemma_flip_view(fen_scan(p.take(4)).boards[0][5], 4);
    assert(fen_scan(p.take(5)).counter == 5);
    assert(fen_scan(p.take(5)).digits =~= Seq::<char>::empty());
    assert(fen_scan(p.take(5)).boards.len() == 2);
    assert(fen_scan(p.take(5)).boards[0].len() == 6 && fen_scan(p.take(5)).boards[1].len() == 6);
    assert(fen_scan(p.take(5)).boards[0][5]@ =~= set![4int]);
    assert(fen_scan(p.take(5)).boards[1][5]@ =~= Set::<int>::empty());
    assert(p.take(6).drop_last() =~= p.take(5));
    assert(p.take(6).last() == '1');
    assert(fen_scan(p.take(6)).counter == 5);
    assert(fen_scan(p.take(6)).digits =~= seq!['1']);
    assert(fen_scan(p.take(6)).boards.len() == 2);
    assert(fen_scan(p.take(6)).boards[0].len() == 6 && fen_scan(p.take(6)).boards[1].len() == 6);
    assert(fen_scan(p.take(6)).boards[0][5]@ =~= set![4int]);
    assert(fen_scan(p.take(6)).boards[1][5]@ =~= Set::<int>::empty());
    assert(p.take(7).drop_last() =~= p.take(6));
    assert(p.take(7).last() == 'Q');
    assert(fen_scan(p.take(7)).counter == 7);
    assert(fen_scan(p.take(7)).digits =~= Seq::<char>::empty());
    assert(fen_scan(p.take(7)).boards.len() == 2);
    assert(fen_scan(p.take(7)).boards[0].len() == 6 && fen_scan(p.take(7)).boards[1].len() == 6);
    assert(fen_scan(p.take(7)).boards[0][5]@ =~= set![4int]);
    assert(fen_scan(p.take(7)).boards[1][5]@ =~= Set::<int>::empty());
    assert(p.take(8).drop_last() =~= p.take(7));
    assert(p.take(8).last() == 'B');
    assert(fen_scan(p.take(8)).counter == 8);
    assert(fen_scan(p.take(8)).digits =~= Seq::<char>::empty());
    assert(fen_scan(p.take(8)).boards.len() == 2);
    assert(fen_scan(p.take(8)).boards[0].len() == 6 && fen_scan(p.take(8)).boards[1].len() == 6);
    assert(fen_scan(p.take(8)).boards[0][5]@ =~= set![4int]);
    assert(fen_scan(p.take(8)).boards[1][5]@ =~= Set::<int>::empty());
    assert(p.take(9).drop_last() =~= p.take(8));
    assert(p.take(9).last() == '2');
    assert(fen_scan(p.take(9)).counter == 8);
    assert(fen_scan(p.take(9)).digits =~= seq!['2']);
    assert(fen_scan(p.take(9)).boards.len() == 2);
    assert(fen_scan(p.take(9)).boards[0].len() == 6 && fen_scan(p.take(9)).boards[1].len() == 6);
    assert(fen_scan(p.take(9)).boards[0][5]@ =~= set![4int]);
    assert(fen_scan(p.take(9)).boards[1][5]@ =~= Set::<int>::empty());
    assert(p.take(10).drop_last() =~= p.take(9));
    assert(p.take(10).last() == 'P');
    lemma_flip_view(fen_scan(p.take(9)).boards[0][5], 10);
    assert(fen_scan(p.take(10)).counter == 11);
    assert(fen_scan(p.take(10)).digits =~= Seq::<char>::empty());
    assert(fen_scan(p.take(10)).boards.len() == 2);
    assert(fen_scan(p.take(10)).boards[0].len() == 6 && fen_scan(p.take(10)).boards[1].len() == 6);
    assert(fen_scan(p.take(10)).boards[0][5]@ =~= set![4int, 10]);
    assert(fen_scan(p.take(10)).boards[1][5]@ =~= Set::<int>::empty());
    assert(p.take(11).drop_last() =~= p.take(10));
    assert(p.take(11).last() == '2');
    assert(fen_scan(p.take(11)).counter == 11);
    assert(fen_scan(p.take(11)).digits =~= seq!['2']);
    assert(fen_scan(p.take(11)).boards.len() == 2);
    assert(fen_scan(p.take(11)).boards[0].len() == 6 && fen_scan(p.take(11)).boards[1].len() == 6);
    assert(fen_scan(p.take(11)).boards[0][5]@ =~= set![4int, 10]);
    assert(fen_scan(p.take(11)).boards[1][5]@ =~= Set::<int>::empty());
    assert(p.take(12).drop_last() =~= p.take(11));
    assert(p.take(12).last() == 'N');
    assert(fen_scan(p.take(12)).counter == 14);
    assert(fen_scan(p.take(12)).digits =~= Seq::<char>::empty());
    assert(fen_scan(p.take(12)).boards.len() == 2);
    assert(fen_scan(p.take(12)).boards[0].len() == 6 && fen_scan(p.take(12)).boards[1].len() == 6);
    assert(fen_scan(p.take(12)).boards[0][5]@ =~= set![4int, 10]);
    assert(fen_scan(p.take(12)).boards[1][5]@ =~= Set::<int>::empty());
    assert(p.take(13).drop_last() =~= p.take(12));
    assert(p.take(13).last() == '1');
    assert(fen_scan(p.take(13)).counter == 14);
    assert(fen_scan(p.take(13)).digits =~= seq!['1']);
    assert(fen_scan(p.take(13)).boards.len() == 2);
    assert(fen_scan(p.take(13)).boards[0].len() == 6 && fen_scan(p.take(13)).boards[1].len() == 6);
    assert(fen_scan(p.take(13)).boards[0][5]@ =~= set![4int, 10]);
    assert(fen_scan(p.take(13)).boards[1][5]@ =~= Set::<int>::empty());
    assert(p.take(14).drop_last() =~= p.take(13));
    assert(p.take(14).last() == 'B');
    assert(fen_scan(p.take(14)).counter == 16);
    assert(fen_scan(p.take(14)).digits =~= Seq::<char>::empty());
    assert(fen_scan(p.take(14)).boards.len() == 2);
    assert(fen_scan(p.take(14)).boards[0].len() == 6 && fen_scan(p.take(14)).boards[1].len() == 6);
    assert(fen_scan(p.take(14)).boards[0][5]@ =~= set![4int, 10]);
    assert(fen_scan(p.take(14)).boards[1][5]@ =~= Set::<int>::empty());
    assert(p.take(15).drop_last() =~= p.take(14));
    assert(p.take(15).last() == '1');
    assert(fen_scan(p.take(15)).counter == 16);
    assert(fen_scan(p.take(15)).digits =~= seq!['1']);
    assert(fen_scan(p.take(15)).boards.len() == 2);
    assert(fen_scan(p.take(15)).boards[0].len() == 6 && fen_scan(p.take(15)).boards[1].len() == 6);
    assert(fen_scan(p.take(15)).boards[0][5]@ =~= set![4int, 10]);
    assert(fen_scan(p.take(15)).boards[1][5]@ =~= Set::<int>::empty());
    assert(p.take(16).drop_last() =~= p.take(15));
    assert(p.take(16).last() == 'P');
    lemma_flip_view(fen_scan(p.take(15)).boards[0][5], 17);
    assert(fen_scan(p.take(16)).counter == 18);
    assert(fen_scan(p.take(16)).digits =~= Seq::<char>::empty());
    assert(fen_scan(p.take(16)).boards.len() == 2);
    assert(fen_scan(p.take(16)).boards[0].len() == 6 && fen_scan(p.take(16)).boards[1].len() == 6);
    assert(fen_scan(p.take(16)).boards[0][5]@ =~= set![4int, 10, 17]);
    assert(fen_scan(p.take(16)).boards[1][5]@ =~= Set::<int>::empty());
    assert(p.take(17).drop_last() =~= p.take(16));
    assert(p.take(17).last() == '3');
    assert(fen_scan(p.take(17)).counter == 18);
    assert(fen_scan(p.take(17)).digits =~= seq!['3']);
    assert(fen_scan(p.take(17)).boards.len() == 2);
    assert(fen_scan(p.take(17)).boards[0].len() == 6 && fen_scan(p.take(17)).boards[1].len() == 6);
    assert(fen_scan(p.take(17)).boards[0][5]@ =~= set![4int, 10, 17]);
    assert(fen_scan(p.take(17)).boards[1][5]@ =~= Set::<int>::empty());
    assert(p.take(18).drop_last() =~= p.take(17));
    assert(p.take(18).last() == 'R');
    assert(fen_scan(p.take(18)).counter == 22);
    assert(fen_scan(p.take(18)).digits =~= Seq::<char>::empty());
    assert(fen_scan(p.take(18)).boards.len() == 2);
    assert(fen_scan(p.take(18)).boards[0].len() == 6 && fen_scan(p.take(18)).boards[1].len() == 6);
    assert(fen_scan(p.take(18)).boards[0][5]@ =~= set![4int, 10, 17]);
    assert(fen_scan(p.take(18)).boards[1][5]@ =~= Set::<int>::empty());
    assert(p.take(19).drop_last() =~= p.take(18));
    assert(p.take(19).last() == '3');
    assert(fen_scan(p.take(19)).counter == 22);
    assert(fen_scan(p.take(19)).digits =~= seq!['3']);
    assert(fen_scan(p.take(19)).boards.len() == 2);
    assert(fen_scan(p.take(19)).boards[0].len() == 6 && fen_scan(p.take(19)).boards[1].len() == 6);
    assert(fen_scan(p.take(19)).boards[0][5]@ =~= set![4int, 10, 17]);
    assert(fen_scan(p.take(19)).boards[1][5]@ =~= Set::<int>::empty());
    assert(p.take(20).drop_last() =~= p.take(19));
    assert(p.take(20).last() == 'P');
    lemma_flip_view(fen_scan(p.take(19)).boards[0][5], 25);
    assert(fen_scan(p.take(20)).counter == 26);
    assert(fen_scan(p.take(20)).digits =~= Seq::<char>::empty());
    assert(fen_scan(p.take(20)).boards.len() == 2);
    assert(fen_scan(p.take(20)).boards[0].len() == 6 && fen_scan(p.take(20)).boards[1].len() == 6);
    assert(fen_scan(p.take(20)).boards[0][5]@ =~= set![4int, 10, 17, 25]);
    assert(fen_scan(p.take(20)).boards[1][5]@ =~= Set::<int>::empty());
    assert(p.take(21).drop_last() =~= p.take(20));
    assert(p.take(21).last() == '4');
    assert(fen_scan(p.take(21)).counter == 26);
    assert(fen_scan(p.take(21)).digits =~= seq!['4']);
    assert(fen_scan(p.take(21)).boards.len() == 2);
    assert(fen_scan(p.take(21)).boards[0].len() == 6 && fen_scan(p.take(21)).boards[1].len() == 6);
    assert(fen_scan(p.take(21)).boards[0][5]@ =~= set![4int, 10, 17, 25]);
    assert(fen_scan(p.take(21)).boards[1][5]@ =~= Set::<int>::empty());
    assert(p.take(22).drop_last() =~= p.take(21));
    assert(p.take(22).last() == 'P');
    lemma_flip_view(fen_scan(p.take(21)).boards[0][5], 30);
    assert(fen_scan(p.take(22)).counter == 31);
    assert(fen_scan(p.take(22)).digits =~= Seq::<char>::empty());
    assert(fen_scan(p.take(22)).boards.len() == 2);
    assert(fen_scan(p.take(22)).boards[0].len() == 6 && fen_scan(p.take(22)).boards[1].len() == 6);
    assert(fen_scan(p.take(22)).boards[0][5]@ =~= set![4int, 10, 17, 25, 30]);
    assert(fen_scan(p.take(22)).boards[1][5]@ =~= Set::<int>::empty());
    assert(p.take(23).drop_last() =~= p.take(22));
    assert(p.take(23).last() == 'P');
    lemma_flip_view(fen_scan(p.take(22)).boards[0][5], 31);
    assert(fen_scan(p.take(23)).counter == 32);
    assert(fen_scan(p.take(23)).digits =~= Seq::<char>::empty());
    assert(fen_scan(p.take(23)).boards.len() == 2);
    assert(fen_scan(p.take(23)).boards[0].len() == 6 && fen_scan(p.take(23)).boards[1].len() == 6);
    assert(fen_scan(p.take(23)).boards[0][5]@ =~= set![4int, 10, 17, 25, 30, 31]);
    assert(fen_scan(p.take(23)).boards[1][5]@ =~= Set::<int>::empty());
    assert(p.take(24).drop_last() =~= p.take(23));
    assert(p.take(24).last() == 'P');
    lemma_flip_view(fen_scan(p.take(23)).boards[0][5], 32);
    assert(fen_scan(p.take(24)).counter == 33);
    assert(fen_scan(p.take(24)).digits =~= Seq::<char>::empty());
    assert(fen_scan(p.take(24)).boards.len() == 2);
    assert(fen_scan(p.take(24)).boards[0].len() == 6 && fen_scan(p.take(24)).boards[1].len() == 6);
    assert(fen_scan(p.take(24)).boards[0][5]@ =~= set![4int, 10, 17, 25, 30, 31, 32]);
    assert(fen_scan(p.take(24)).boards[1][5]@ =~= Set::<int>::empty());
    assert(p.take(25).drop_last() =~= p.take(24));
    assert(p.take(25).last() == 'P');
    lemma_flip_view(fen_scan(p.take(24)).boards[0][5], 33);
    assert(fen_scan(p.take(25)).counter == 34);
    assert(fen_scan(p.take(25)).digits =~= Seq::<char>::empty());
    assert(fen_scan(p.take(25)).boards.len() == 2);
    assert(fen_scan(p.take(25)).boards[0].len() == 6 && fen_scan(p.take(25)).boards[1].len() == 6);
    assert(fen_scan(p.take(25)).boards[0][5]@ =~= set![4int, 10, 17, 25, 30, 31, 32, 33]);
    assert(fen_scan(p.take(25)).boards[1][5]@ =~= Set::<int>::empty());
    assert(p.take(26).drop_last() =~= p.take(25));
    assert(p.take(26).last() == 'P');
    lemma_flip_view(fen_scan(p.take(25)).boards[0][5], 34);
    assert(fen_scan(p.take(26)).counter == 35);
    assert(fen_scan(p.take(26)).digits =~= Seq::<char>::empty());
    assert(fen_scan(p.take(26)).boards.len() == 2);
    assert(fen_scan(p.take(26)).boards[0].len() == 6 && fen_scan(p.take(26)).boards[1].len() == 6);
    assert(fen_scan(p.take(26)).boards[0][5]@ =~= set![4int, 10, 17, 25, 30, 31, 32, 33, 34]);
    assert(fen_scan(p.take(26)).boards[1][5]@ =~= Set::<int>::empty());
    assert(p.take(27).drop_last() =~= p.take(26));
    assert(p.take(27).last() == '2');
    assert(fen_scan(p.take(27)).counter == 35);
    assert(fen_scan(p.take(27)).digits =~= seq!['2']);
    assert(fen_scan(p.take(27)).boards.len() == 2);
    assert(fen_scan(p.take(27)).boards[0].len() == 6 && fen_scan(p.take(27)).boards[1].len() == 6);
    assert(fen_scan(p.take(27)).boards[0][5]@ =~= set![4int, 10, 17, 25, 30, 31, 32, 33, 34]);
    assert(fen_scan(p.take(27)).boards[1][5]@ =~= Set::<int>::empty());
    assert(p.take(28).drop_last() =~= p.take(27));
    assert(p.take(28).last() == '1');
    assert(fen_scan(p.take(28)).counter == 35);
    assert(fen_scan(p.take(28)).digits =~= seq!['2', '1']);
    assert(fen_scan(p.take(28)).boards.len() == 2);
    assert(fen_scan(p.take(28)).boards[0].len() == 6 && fen_scan(p.take(28)).boards[1].len() == 6);
    assert(fen_scan(p.take(28)).boards[0][5]@ =~= set![4int, 10, 17, 25, 30, 31, 32, 33, 34]);
    assert(fen_scan(p.take(28)).boards[1][5]@ =~= Set::<int>::empty());
    assert(p.take(29).drop_last() =~= p.take(28));
    assert(p.take(29).last() == 'p');
    lemma_flip_view(fen_scan(p.take(28)).boards[1][5], 56);
    assert(fen_scan(p.take(29)).counter == 57);
    assert(fen_scan(p.take(29)).digits =~= Seq::<char>::empty());
    assert(fen_scan(p.take(29)).boards.len() == 2);
    assert(fen_scan(p.take(29)).boards[0].len() == 6 && fen_scan(p.take(29)).boards[1].len() == 6);
    assert(fen_scan(p.take(29)).boards[0][5]@ =~= set![4int, 10, 17, 25, 30, 31, 32, 33, 34]);
    assert(fen_scan(p.take(29)).boards[1][5]@ =~= set![56int]);
    assert(p.take(30).drop_last() =~= p.take(29));
    assert(p.take(30).last() == 'p');
    lemma_flip_view(fen_scan(p.take(29)).boards[1][5], 57);
    assert(fen_scan(p.take(30)).counter == 58);
    assert(fen_scan(p.take(30)).digits =~= Seq::<char>::empty());
    assert(fen_scan(p.take(30)).boards.len() == 2);
    assert(fen_scan(p.take(30)).boards[0].len() == 6 && fen_scan(p.take(30)).boards[1].len() == 6);
    assert(fen_scan(p.take(30)).boards[0][5]@ =~= set![4int, 10, 17, 25, 30, 31, 32, 33, 34]);
    assert(fen_scan(p.take(30)).boards[1][5]@ =~= set![56int, 57]);
    assert(p.take(31).drop_last() =~= p.take(30));
    assert(p.take(31).last() == 'p');
    lemma_flip_view(fen_scan(p.take(30)).boards[1][5], 58);
    assert(fen_scan(p.take(31)).counter == 59);
    assert(fen_scan(p.take(31)).digits =~= Seq::<char>::empty());
    assert(fen_scan(p.take(31)).boards.len() == 2);
    assert(fen_scan(p.take(31)).boards[0].len() == 6 && fen_scan(p.take(31)).boards[1].len() == 6);
    assert(fen_scan(p.take(31)).boards[0][5]@ =~= set![4int, 10, 17, 25, 30, 31, 32, 33, 34]);
    assert(fen_scan(p.take(31)).boards[1][5]@ =~= set![56int, 57, 58]);
    assert(p.take(32).drop_last() =~= p.take(31));
    assert(p.take(32).last() == 'p');
    lemma_flip_view(fen_scan(p.take(31)).boards[1][5], 59);
    assert(fen_scan(p.take(32)).counter == 60);
    assert(fen_scan(p.take(32)).digits =~= Seq::<char>::empty());
    assert(fen_scan(p.take(32)).boards.len() == 2);
    assert(fen_scan(p.take(32)).boards[0].len() == 6 && fen_scan(p.take(32)).boards[1].len() == 6);
    assert(fen_scan(p.take(32)).boards[0][5]@ =~= set![4int, 10, 17, 25, 30, 31, 32, 33, 34]);
    assert(fen_scan(p.take(32)).boards[1][5]@ =~= set![56int, 57, 58, 59]);
    assert(p.take(33).drop_last() =~= p.take(32));
    assert(p.take(33).last() == 'p');
    lemma_flip_view(fen_scan(p.take(32)).boards[1][5], 60);
    assert(fen_scan(p.take(33)).counter == 61);
    assert(fen_scan(p.take(33)).digits =~= Seq::<char>::empty());
    assert(fen_scan(p.take(33)).boards.len() == 2);
    assert(fen_scan(p.take(33)).boards[0].len() == 6 && fen_scan(p.take(33)).boards[1].len() == 6);
    assert(fen_scan(p.take(33)).boards[0][5]@ =~= set![4int, 10, 17, 25, 30, 31, 32, 33, 34]);
    assert(fen_scan(p.take(33)).boards[1][5]@ =~= set![56int, 57, 58, 59, 60]);
    assert(p.take(34).drop_last() =~= p.take(33));
    assert(p.take(34).last() == '4');
    assert(fen_scan(p.take(34)).counter == 61);
    assert(fen_scan(p.take(34)).digits =~= seq!['4']);
    assert(fen_scan(p.take(34)).boards.len() == 2);
    assert(fen_scan(p.take(34)).boards[0].len() == 6 && fen_scan(p.take(34)).boards[1].len() == 6);
    assert(fen_scan(p.take(34)).boards[0][5]@ =~= set![4int, 10, 17, 25, 30, 31, 32, 33, 34]);
    assert(fen_scan(p.take(34)).boards[1][5]@ =~= set![56int, 57, 58, 59, 60]);
    assert(p.take(35).drop_last() =~= p.take(34));
    assert(p.take(35).last() == 'p');
    lemma_flip_view(fen_scan(p.take(34)).boards[1][5], 65);
    assert(fen_scan(p.take(35)).counter == 66);
    assert(fen_scan(p.take(35)).digits =~= Seq::<char>::empty());
    assert(fen_scan(p.take(35)).boards.len() == 2);
    assert(fen_scan(p.take(35)).boards[0].len() == 6 && fen_scan(p.take(35)).boards[1].len() == 6);
    assert(fen_scan(p.take(35)).boards[0][5]@ =~= set![4int, 10, 17, 25, 30, 31, 32, 33, 34]);
    assert(fen_scan(p.take(35)).boards[1][5]@ =~= set![56int, 57, 58, 59, 60, 65]);
    assert(p.take(36).drop_last() =~= p.take(35));
    assert(p.take(36).last() == '3');
    assert(fen_scan(p.take(36)).counter == 66);
    assert(fen_scan(p.take(36)).digits =~= seq!['3']);
    assert(fen_scan(p.take(36)).boards.len() == 2);
    assert(fen_scan(p.take(36)).boards[0].len() == 6 && fen_scan(p.take(36)).boards[1].len() == 6);
    assert(fen_scan(p.take(36)).boards[0][5]@ =~= set![4int, 10, 17, 25, 30, 31, 32, 33, 34]);
    assert(fen_scan(p.take(36)).boards[1][5]@ =~= set![56int, 57, 58, 59, 60, 65]);
    assert(p.take(37).drop_last() =~= p.take(36));
    assert(p.take(37).last() == 'r');
    assert(fen_scan(p.take(37)).counter == 70);
    assert(fen_scan(p.take(37)).digits =~= Seq::<char>::empty());
    assert(fen_scan(p.take(37)).boards.len() == 2);
    assert(fen_scan(p.take(37)).boards[0].len() == 6 && fen_scan(p.take(37)).boards[1].len() == 6);
    assert(fen_scan(p.take(37)).boards[0][5]@ =~= set![4int, 10, 17, 25, 30, 31, 32, 33, 34]);
    assert(fen_scan(p.take(37)).boards[1][5]@ =~= set![56int, 57, 58, 59, 60, 65]);
    assert(p.take(38).drop_last() =~= p.take(37));
    assert(p.take(38).last() == '3');
    assert(fen_scan(p.take(38)).counter == 70);
    assert(fen_scan(p.take(38)).digits =~= seq!['3']);
    assert(fen_scan(p.take(38)).boards.len() == 2);
    assert(fen_scan(p.take(38)).boards[0].len() == 6 && fen_scan(p.take(38)).boards[1].len() == 6);
    assert(fen_scan(p.take(38)).boards[0][5]@ =~= set![4int, 10, 17, 25, 30, 31, 32, 33, 34]);
    assert(fen_scan(p.take(38)).boards[1][5]@ =~= set![56int, 57, 58, 59, 60, 65]);
    assert(p.take(39).drop_last() =~= p.take(38));
    assert(p.take(39).last() == 'p');
    lemma_flip_view(fen_scan(p.take(38)).boards[1][5], 73);
    assert(fen_scan(p.take(39)).counter == 74);
    assert(fen_scan(p.take(39)).digits =~= Seq::<char>::empty());
    assert(fen_scan(p.take(39)).boards.len() == 2);
    assert(fen_scan(p.take(39)).boards[0].len() == 6 && fen_scan(p.take(39)).boards[1].len() == 6);
    assert(fen_scan(p.take(39)).boards[0][5]@ =~= set![4int, 10, 17, 25, 30, 31, 32, 33, 34]);
    assert(fen_scan(p.take(39)).boards[1][5]@ =~= set![56int, 57, 58, 59, 60, 65, 73]);
    assert(p.take(40).drop_last() =~= p.take(39));
    assert(p.take(40).last() == '1');
    assert(fen_scan(p.take(40)).counter == 74);
    assert(fen_scan(p.take(40)).digits =~= seq!['1']);
    assert(fen_scan(p.take(40)).boards.len() == 2);
    assert(fen_scan(p.take(40)).boards[0].len() == 6 && fen_scan(p.take(40)).boards[1].len() == 6);
    assert(fen_scan(p.take(40)).boards[0][5]@ =~= set![4int, 10, 17, 25, 30, 31, 32, 33, 34]);
    assert(fen_scan(p.take(40)).boards[1][5]@ =~= set![56int, 57, 58, 59, 60, 65, 73]);
    assert(p.take(41).drop_last() =~= p.take(40));
    assert(p.take(41).last() == 'b');
    assert(fen_scan(p.take(41)).counter == 76);
    assert(fen_scan(p.take(41)).digits =~= Seq::<char>::empty());
    assert(fen_scan(p.take(41)).boards.len() == 2);
    assert(fen_scan(p.take(41)).boards[0].len() == 6 && fen_scan(p.take(41)).boards[1].len() == 6);
    assert(fen_scan(p.take(41)).boards[0][5]@ =~= set![4int, 10, 17, 25, 30, 31, 32, 33, 34]);
    assert(fen_scan(p.take(41)).boards[1][5]@ =~= set![56int, 57, 58, 59, 60, 65, 73]);
    assert(p.take(42).drop_last() =~= p.take(41));
    assert(p.take(42).last() == '1');
    assert(fen_scan(p.take(42)).counter == 76);
    assert(fen_scan(p.take(42)).digits =~= seq!['1']);
    assert(fen_scan(p.take(42)).boards.len() == 2);
    assert(fen_scan(p.take(42)).boards[0].len() == 6 && fen_scan(p.take(42)).boards[1].len() == 6);
    assert(fen_scan(p.take(42)).boards[0][5]@ =~= set![4int, 10, 17, 25, 30, 31, 32, 33, 34]);
    assert(fen_scan(p.take(42)).boards[1][5]@ =~= set![56int, 57, 58, 59, 60, 65, 73]);
    assert(p.take(43).drop_last() =~= p.take(42));
    assert(p.take(43).last() == 'n');
    assert(fen_scan(p.take(43)).counter == 78);
    assert(fen_scan(p.take(43)).digits =~= Seq::<char>::empty());
    assert(fen_scan(p.take(43)).boards.len() == 2);
    assert(fen_scan(p.take(43)).boards[0].len() == 6 && fen_scan(p.take(43)).boards[1].len() == 6);
    assert(fen_scan(p.take(43)).boards[0][5]@ =~= set![4int, 10, 17, 25, 30, 31, 32, 33, 34]);
    assert(fen_scan(p.take(43)).boards[1][5]@ =~= set![56int, 57, 58, 59, 60, 65, 73]);
    assert(p.take(44).drop_last() =~= p.take(43));
    assert(p.take(44).last() == '2');
    assert(fen_scan(p.take(44)).counter == 78);
    assert(fen_scan(p.take(44)).digits =~= seq!['2']);
    assert(fen_scan(p.take(44)).boards.len() == 2);
    assert(fen_scan(p.take(44)).boards[0].len() == 6 && fen_scan(p.take(44)).boards[1].len() == 6);
    assert(fen_scan(p.take(44)).boards[0][5]@ =~= set![4int, 10, 17, 25, 30, 31, 32, 33, 34]);
    assert(fen_scan(p.take(44)).boards[1][5]@ =~= set![56int, 57, 58, 59, 60, 65, 73]);
    assert(p.take(45).drop_last() =~= p.take(44));
    assert(p.take(45).last() == 'p');
    lemma_flip_view(fen_scan(p.take(44)).boards[1][5], 80);
    assert(fen_scan(p.take(45)).counter == 81);
    assert(fen_scan(p.take(45)).digits =~= Seq::<char>::empty());
    assert(fen_scan(p.take(45)).boards.len() == 2);
    assert(fen_scan(p.take(45)).boards[0].len() == 6 && fen_scan(p.take(45)).boards[1].len() == 6);
    assert(fen_scan(p.take(45)).boards[0][5]@ =~= set![4int, 10, 17, 25, 30, 31, 32, 33, 34]);
    assert(fen_scan(p.take(45)).boards[1][5]@ =~= set![56int, 57, 58, 59, 60, 65, 73, 80]);
    assert(p.take(46).drop_last() =~= p.take(45));
    assert(p.take(46).last() == '2');
    assert(fen_scan(p.take(46)).counter == 81);
    assert(fen_scan(p.take(46)).digits =~= seq!['2']);
    assert(fen_scan(p.take(46)).boards.len() == 2);
    assert(fen_scan(p.take(46)).boards[0].len() == 6 && fen_scan(p.take(46)).boards[1].len() == 6);
    assert(fen_scan(p.take(46)).boards[0][5]@ =~= set![4int, 10, 17, 25, 30, 31, 32, 33, 34]);
    assert(fen_scan(p.take(46)).boards[1][5]@ =~= set![56int, 57, 58, 59, 60, 65, 73, 80]);
    assert(p.take(47).drop_last() =~= p.take(46));
    assert(p.take(47).last() == 'b');
    assert(fen_scan(p.take(47)).counter == 84);
    assert(fen_scan(p.take(47)).digits =~= Seq::<char>::empty());
    assert(fen_scan(p.take(47)).boards.len() == 2);
    assert(fen_scan(p.take(47)).boards[0].len() == 6 && fen_scan(p.take(47)).boards[1].len() == 6);
    assert(fen_scan(p.take(47)).boards[0][5]@ =~= set![4int, 10, 17, 25, 30, 31, 32, 33, 34]);
    assert(fen_scan(p.take(47)).boards[1][5]@ =~= set![56int, 57, 58, 59, 60, 65, 73, 80]);
    assert(p.take(48).drop_last() =~= p.take(47));
    assert(p.take(48).last() == 'q');
    assert(fen_scan(p.take(48)).counter == 85);
    assert(fen_scan(p.take(48)).digits =~= Seq::<char>::empty());
    assert(fen_scan(p.take(48)).boards.len() == 2);
    assert(fen_scan(p.take(48)).boards[0].len() == 6 && fen_scan(p.take(48)).boards[1].len() == 6);
    assert(fen_scan(p.take(48)).boards[0][5]@ =~= set![4int, 10, 17, 25, 30, 31, 32, 33, 34]);
    assert(fen_scan(p.take(48)).boards[1][5]@ =~= set![56int, 57, 58, 59, 60, 65, 73, 80]);
    assert(p.take(49).drop_last() =~= p.take(48));
    assert(p.take(49).last() == '1');
    assert(fen_scan(p.take(49)).counter == 85);
    assert(fen_scan(p.take(49)).digits =~= seq!['1']);
    assert(fen_scan(p.take(49)).boards.len() == 2);
    assert(fen_scan(p.take(49)).boards[0].len() == 6 && fen_scan(p.take(49)).boards[1].len() == 6);
    assert(fen_scan(p.take(49)).boards[0][5]@ =~= set![4int, 10, 17, 25, 30, 31, 32, 33, 34]);
    assert(fen_scan(p.take(49)).boards[1][5]@ =~= set![56int, 57, 58, 59, 60, 65, 73, 80]);
    assert(p.take(50).drop_last() =~= p.take(49));
    assert(p.take(50).last() == 'p');
    lemma_flip_view(fen_scan(p.take(49)).boards[1][5], 86);
    assert(fen_scan(p.take(50)).counter == 87);
    assert(fen_scan(p.take(50)).digits =~= Seq::<char>::empty());
    assert(fen_scan(p.take(50)).boards.len() == 2);
    assert(fen_scan(p.take(50)).boards[0].len() == 6 && fen_scan(p.take(50)).boards[1].len() == 6);
    assert(fen_scan(p.take(50)).boards[0][5]@ =~= set![4int, 10, 17, 25, 30, 31, 32, 33, 34]);
    assert(fen_scan(p.take(50)).boards[1][5]@ =~= set![56int, 57, 58, 59, 60, 65, 73, 80, 86]);
    assert(p.take(51).drop_last() =~= p.take(50));
    assert(p.take(51).last() == 'r');
    assert(fen_scan(p.take(51)).counter == 88);
    assert(fen_scan(p.take(51)).digits =~= Seq::<char>::empty());
    assert(fen_scan(p.take(51)).boards.len() == 2);
    assert(fen_scan(p.take(51)).boards[0].len() == 6 && fen_scan(p.take(51)).boards[1].len() == 6);
    assert(fen_scan(p.take(51)).boards[0][5]@ =~= set![4int, 10, 17, 25, 30, 31, 32, 33, 34]);
    assert(fen_scan(p.take(51)).boards[1][5]@ =~= set![56int, 57, 58, 59, 60, 65, 73, 80, 86]);
    assert(p.take(52).drop_last() =~= p.take(51));
    assert(p.take(52).last() == 'n');
    assert(fen_scan(p.take(52)).counter == 89);
    assert(fen_scan(p.take(52)).digits =~= Seq::<char>::empty());
    assert(fen_scan(p.take(52)).boards.len() == 2);
    assert(fen_scan(p.take(52)).boards[0].len() == 6 && fen_scan(p.take(52)).boards[1].len() == 6);
    assert(fen_scan(p.take(52)).boards[0][5]@ =~= set![4int, 10, 17, 25, 30, 31, 32, 33, 34]);
    assert(fen_scan(p.take(52)).boards[1][5]@ =~= set![56int, 57, 58, 59, 60, 65, 73, 80, 86]);
    assert(p.take(53).drop_last() =~= p.take(52));
    assert(p.take(53).last() == 'k');
    assert(fen_scan(p.take(53)).counter == 90);
    assert(fen_scan(p.take(53)).digits =~= Seq::<char>::empty());
    assert(fen_scan(p.take(53)).boards.len() == 2);
    assert(fen_scan(p.take(53)).boards[0].len() == 6 && fen_scan(p.take(53)).boards[1].len() == 6);
    assert(fen_scan(p.take(53)).boards[0][5]@ =~= set![4int, 10, 17, 25, 30, 31, 32, 33, 34]);
    assert(fen_scan(p.take(53)).boards[1][5]@ =~= set![56int, 57, 58, 59, 60, 65, 73, 80, 86]);
    assert(p.take(54).drop_last() =~= p.take(53));
    assert(p.take(54).last() == 'b');
    assert(fen_scan(p.take(54)).counter == 91);
    assert(fen_scan(p.take(54)).digits =~= Seq::<char>::empty());
    assert(fen_scan(p.take(54)).boards.len() == 2);
    assert(fen_scan(p.take(54)).boards[0].len() == 6 && fen_scan(p.take(54)).boards[1].len() == 6);
    assert(fen_scan(p.take(54)).boards[0][5]@ =~= set![4int, 10, 17, 25, 30, 31, 32, 33, 34]);
    assert(fen_scan(p.take(54)).boards[1][5]@ =~= set![56int, 57, 58, 59, 60, 65, 73, 80, 86]);
    assert(p.take(54) =~= p);
}


impl Position {
    /// The starting position on the traditional board.
    pub fn new_traditional() -> (r: Self)
        ensures
            r.model() == position_from_chars("RNBQKBNRPPPPPPPP32pppppppprnbqkbnr w -"@, r.zobrist_table),
            r.zobrist_table.wf(),
            r.zobrist_table.is_generated(),
            r.occupied_ok(),
    {
        let fen = "RNBQKBNRPPPPPPPP32pppppppprnbqkbnr w -";
        proof {
            lemma_traditional_string_ok();
        }
        Position::from_string(fen.to_owned())
    }

    /// The starting position on the hexagonal board.
    pub fn new_hexagonal() -> (r: Self)
        ensures
            r.model() == position_from_chars("BKNRP1QB2P2N1B1P3R3P4PPPPP21ppppp4p3r3p1b1n2p2bq1prnkb w -"@, r.zobrist_table),
            r.zobrist_table.wf(),
            r.zobrist_table.is_generated(),
            r.occupied_ok(),
    {
        let fen = "BKNRP1QB2P2N1B1P3R3P4PPPPP21ppppp4p3r3p1b1n2p2bq1prnkb w -";
        proof {
            lemma_hexagonal_string_ok();
        }
        Position::from_string(fen.to_owned())
    }

    /// The starting position on the triangular board.
    pub fn new_triangular() -> (r: Self)
        ensures
            r.model() == position_from_chars("RKNP2pnkrQBP3pbqNP4pnP5p21 w -"@, r.zobrist_table),
            r.zobrist_table.wf(),
            r.zobrist_table.is_generated(),
            r.occupied_ok(),
    {
        let fen = "RKNP2pnkrQBP3pbqNP4pnP5p21 w -";
        proof {
            lemma_triangular_string_ok();
        }
        Position::from_string(fen.to_owned())
    }
}

} // verus!
