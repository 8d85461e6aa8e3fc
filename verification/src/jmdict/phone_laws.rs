//! How phones are spelled in romaji, said of literal phones.

use crate::jmdict::pronunciation::{
    all_unstressed, closing_sound, consonant_sound, inner_sound, is_phone, is_pronounced,
    katakana_of, next_vowel, onset, romaji_after, romaji_of, settled_romaji, sounds_between,
    unstressed, vowel_sound,
};
use crate::jmdict::readings::with_vowels;
use crate::kana::{hiragana_of, nfc_of, nfkd_of};
use crate::text::joined;
use vstd::prelude::*;

verus! {

/// The fifteen vowels.
proof fn vowels_have_letters()
    ensures
        vowel_sound("AA"@) == Some("aa"@),
        vowel_sound("AE"@) == Some("a"@),
        vowel_sound("AH"@) == Some("o"@),
        vowel_sound("AO"@) == Some("o"@),
        vowel_sound("AW"@) == Some("au"@),
        vowel_sound("AY"@) == Some("ai"@),
        vowel_sound("EH"@) == Some("e"@),
        vowel_sound("ER"@) == Some("aa"@),
        vowel_sound("EY"@) == Some("ei"@),
        vowel_sound("IH"@) == Some("i"@),
        vowel_sound("IY"@) == Some("ii"@),
        vowel_sound("OW"@) == Some("ou"@),
        vowel_sound("OY"@) == Some("oi"@),
        vowel_sound("UH"@) == Some("u"@),
        vowel_sound("UW"@) == Some("uu"@),
{
    reveal_strlit("AA");
    assert("AA"@.len() == 2 && "AA"@[0] == 'A' && "AA"@[1] == 'A');
    reveal_strlit("AE");
    assert("AE"@.len() == 2 && "AE"@[0] == 'A' && "AE"@[1] == 'E');
    reveal_strlit("AH");
    assert("AH"@.len() == 2 && "AH"@[0] == 'A' && "AH"@[1] == 'H');
    reveal_strlit("AO");
    assert("AO"@.len() == 2 && "AO"@[0] == 'A' && "AO"@[1] == 'O');
    reveal_strlit("AW");
    assert("AW"@.len() == 2 && "AW"@[0] == 'A' && "AW"@[1] == 'W');
    reveal_strlit("AY");
    assert("AY"@.len() == 2 && "AY"@[0] == 'A' && "AY"@[1] == 'Y');
    reveal_strlit("EH");
    assert("EH"@.len() == 2 && "EH"@[0] == 'E' && "EH"@[1] == 'H');
    reveal_strlit("ER");
    assert("ER"@.len() == 2 && "ER"@[0] == 'E' && "ER"@[1] == 'R');
    reveal_strlit("EY");
    assert("EY"@.len() == 2 && "EY"@[0] == 'E' && "EY"@[1] == 'Y');
    reveal_strlit("IH");
    assert("IH"@.len() == 2 && "IH"@[0] == 'I' && "IH"@[1] == 'H');
    reveal_strlit("IY");
    assert("IY"@.len() == 2 && "IY"@[0] == 'I' && "IY"@[1] == 'Y');
    reveal_strlit("OW");
    assert("OW"@.len() == 2 && "OW"@[0] == 'O' && "OW"@[1] == 'W');
    reveal_strlit("OY");
    assert("OY"@.len() == 2 && "OY"@[0] == 'O' && "OY"@[1] == 'Y');
    reveal_strlit("UH");
    assert("UH"@.len() == 2 && "UH"@[0] == 'U' && "UH"@[1] == 'H');
    reveal_strlit("UW");
    assert("UW"@.len() == 2 && "UW"@[0] == 'U' && "UW"@[1] == 'W');
}

/// The twenty-three consonants.
proof fn consonants_have_letters()
    ensures
        consonant_sound("P"@) == Some("p"@),
        consonant_sound("B"@) == Some("b"@),
        consonant_sound("M"@) == Some("m"@),
        consonant_sound("F"@) == Some("f"@),
        consonant_sound("V"@) == Some("v"@),
        consonant_sound("T"@) == Some("t"@),
        consonant_sound("D"@) == Some("d"@),
        consonant_sound("K"@) == Some("k"@),
        consonant_sound("G"@) == Some("g"@),
        consonant_sound("S"@) == Some("s"@),
        consonant_sound("Z"@) == Some("z"@),
        consonant_sound("SH"@) == Some("sh"@),
        consonant_sound("ZH"@) == Some("j"@),
        consonant_sound("CH"@) == Some("ch"@),
        consonant_sound("JH"@) == Some("j"@),
        consonant_sound("N"@) == Some("n"@),
        consonant_sound("NG"@) == Some("ng"@),
        consonant_sound("HH"@) == Some("h"@),
        consonant_sound("L"@) == Some("r"@),
        consonant_sound("R"@) == Some("r"@),
        consonant_sound("W"@) == Some("w"@),
        consonant_sound("Y"@) == Some("y"@),
        consonant_sound("TH"@) == Some("s"@),
{
    reveal_strlit("P");
    assert("P"@.len() == 1 && "P"@[0] == 'P');
    reveal_strlit("B");
    assert("B"@.len() == 1 && "B"@[0] == 'B');
    reveal_strlit("M");
    assert("M"@.len() == 1 && "M"@[0] == 'M');
    reveal_strlit("F");
    assert("F"@.len() == 1 && "F"@[0] == 'F');
    reveal_strlit("V");
    assert("V"@.len() == 1 && "V"@[0] == 'V');
    reveal_strlit("T");
    assert("T"@.len() == 1 && "T"@[0] == 'T');
    reveal_strlit("D");
    assert("D"@.len() == 1 && "D"@[0] == 'D');
    reveal_strlit("K");
    assert("K"@.len() == 1 && "K"@[0] == 'K');
    reveal_strlit("G");
    assert("G"@.len() == 1 && "G"@[0] == 'G');
    reveal_strlit("S");
    assert("S"@.len() == 1 && "S"@[0] == 'S');
    reveal_strlit("Z");
    assert("Z"@.len() == 1 && "Z"@[0] == 'Z');
    reveal_strlit("SH");
    assert("SH"@.len() == 2 && "SH"@[0] == 'S' && "SH"@[1] == 'H');
    reveal_strlit("ZH");
    assert("ZH"@.len() == 2 && "ZH"@[0] == 'Z' && "ZH"@[1] == 'H');
    reveal_strlit("CH");
    assert("CH"@.len() == 2 && "CH"@[0] == 'C' && "CH"@[1] == 'H');
    reveal_strlit("JH");
    assert("JH"@.len() == 2 && "JH"@[0] == 'J' && "JH"@[1] == 'H');
    reveal_strlit("N");
    assert("N"@.len() == 1 && "N"@[0] == 'N');
    reveal_strlit("NG");
    assert("NG"@.len() == 2 && "NG"@[0] == 'N' && "NG"@[1] == 'G');
    reveal_strlit("HH");
    assert("HH"@.len() == 2 && "HH"@[0] == 'H' && "HH"@[1] == 'H');
    reveal_strlit("L");
    assert("L"@.len() == 1 && "L"@[0] == 'L');
    reveal_strlit("R");
    assert("R"@.len() == 1 && "R"@[0] == 'R');
    reveal_strlit("W");
    assert("W"@.len() == 1 && "W"@[0] == 'W');
    reveal_strlit("Y");
    assert("Y"@.len() == 1 && "Y"@[0] == 'Y');
    reveal_strlit("TH");
    assert("TH"@.len() == 2 && "TH"@[0] == 'T' && "TH"@[1] == 'H');
}

/// Vowels are no consonants, and consonants no vowels.
proof fn consonants_are_no_vowels()
    ensures
        vowel_sound("P"@) is None,
        vowel_sound("B"@) is None,
        vowel_sound("M"@) is None,
        vowel_sound("F"@) is None,
        vowel_sound("V"@) is None,
        vowel_sound("T"@) is None,
        vowel_sound("D"@) is None,
        vowel_sound("K"@) is None,
        vowel_sound("G"@) is None,
        vowel_sound("S"@) is None,
        vowel_sound("Z"@) is None,
        vowel_sound("SH"@) is None,
        vowel_sound("ZH"@) is None,
        vowel_sound("CH"@) is None,
        vowel_sound("JH"@) is None,
        vowel_sound("N"@) is None,
        vowel_sound("NG"@) is None,
        vowel_sound("HH"@) is None,
        vowel_sound("L"@) is None,
        vowel_sound("R"@) is None,
        vowel_sound("W"@) is None,
        vowel_sound("Y"@) is None,
        vowel_sound("TH"@) is None,
{
    reveal_strlit("AA");
    assert("AA"@.len() == 2 && "AA"@[0] == 'A' && "AA"@[1] == 'A');
    reveal_strlit("AE");
    assert("AE"@.len() == 2 && "AE"@[0] == 'A' && "AE"@[1] == 'E');
    reveal_strlit("AH");
    assert("AH"@.len() == 2 && "AH"@[0] == 'A' && "AH"@[1] == 'H');
    reveal_strlit("AO");
    assert("AO"@.len() == 2 && "AO"@[0] == 'A' && "AO"@[1] == 'O');
    reveal_strlit("AW");
    assert("AW"@.len() == 2 && "AW"@[0] == 'A' && "AW"@[1] == 'W');
    reveal_strlit("AY");
    assert("AY"@.len() == 2 && "AY"@[0] == 'A' && "AY"@[1] == 'Y');
    reveal_strlit("EH");
    assert("EH"@.len() == 2 && "EH"@[0] == 'E' && "EH"@[1] == 'H');
    reveal_strlit("ER");
    assert("ER"@.len() == 2 && "ER"@[0] == 'E' && "ER"@[1] == 'R');
    reveal_strlit("EY");
    assert("EY"@.len() == 2 && "EY"@[0] == 'E' && "EY"@[1] == 'Y');
    reveal_strlit("IH");
    assert("IH"@.len() == 2 && "IH"@[0] == 'I' && "IH"@[1] == 'H');
    reveal_strlit("IY");
    assert("IY"@.len() == 2 && "IY"@[0] == 'I' && "IY"@[1] == 'Y');
    reveal_strlit("OW");
    assert("OW"@.len() == 2 && "OW"@[0] == 'O' && "OW"@[1] == 'W');
    reveal_strlit("OY");
    assert("OY"@.len() == 2 && "OY"@[0] == 'O' && "OY"@[1] == 'Y');
    reveal_strlit("UH");
    assert("UH"@.len() == 2 && "UH"@[0] == 'U' && "UH"@[1] == 'H');
    reveal_strlit("UW");
    assert("UW"@.len() == 2 && "UW"@[0] == 'U' && "UW"@[1] == 'W');
    reveal_strlit("P");
    assert("P"@.len() == 1 && "P"@[0] == 'P');
    reveal_strlit("B");
    assert("B"@.len() == 1 && "B"@[0] == 'B');
    reveal_strlit("M");
    assert("M"@.len() == 1 && "M"@[0] == 'M');
    reveal_strlit("F");
    assert("F"@.len() == 1 && "F"@[0] == 'F');
    reveal_strlit("V");
    assert("V"@.len() == 1 && "V"@[0] == 'V');
    reveal_strlit("T");
    assert("T"@.len() == 1 && "T"@[0] == 'T');
    reveal_strlit("D");
    assert("D"@.len() == 1 && "D"@[0] == 'D');
    reveal_strlit("K");
    assert("K"@.len() == 1 && "K"@[0] == 'K');
    reveal_strlit("G");
    assert("G"@.len() == 1 && "G"@[0] == 'G');
    reveal_strlit("S");
    assert("S"@.len() == 1 && "S"@[0] == 'S');
    reveal_strlit("Z");
    assert("Z"@.len() == 1 && "Z"@[0] == 'Z');
    reveal_strlit("SH");
    assert("SH"@.len() == 2 && "SH"@[0] == 'S' && "SH"@[1] == 'H');
    reveal_strlit("ZH");
    assert("ZH"@.len() == 2 && "ZH"@[0] == 'Z' && "ZH"@[1] == 'H');
    reveal_strlit("CH");
    assert("CH"@.len() == 2 && "CH"@[0] == 'C' && "CH"@[1] == 'H');
    reveal_strlit("JH");
    assert("JH"@.len() == 2 && "JH"@[0] == 'J' && "JH"@[1] == 'H');
    reveal_strlit("N");
    assert("N"@.len() == 1 && "N"@[0] == 'N');
    reveal_strlit("NG");
    assert("NG"@.len() == 2 && "NG"@[0] == 'N' && "NG"@[1] == 'G');
    reveal_strlit("HH");
    assert("HH"@.len() == 2 && "HH"@[0] == 'H' && "HH"@[1] == 'H');
    reveal_strlit("L");
    assert("L"@.len() == 1 && "L"@[0] == 'L');
    reveal_strlit("R");
    assert("R"@.len() == 1 && "R"@[0] == 'R');
    reveal_strlit("W");
    assert("W"@.len() == 1 && "W"@[0] == 'W');
    reveal_strlit("Y");
    assert("Y"@.len() == 1 && "Y"@[0] == 'Y');
    reveal_strlit("TH");
    assert("TH"@.len() == 2 && "TH"@[0] == 'T' && "TH"@[1] == 'H');
}

/// The words whose Japanese form is settled are spelled so, whatever their stress.
pub proof fn settled_words_are_spelled(phones: Seq<Seq<char>>)
    ensures
        joined(all_unstressed(phones), " "@) == "G AE L ER IY"@ ==> romaji_of(phones) == Some(
            "gyararii"@,
        ),
        joined(all_unstressed(phones), " "@) == "K AA R"@ ==> romaji_of(phones) == Some(
            "kaa"@,
        ),
        joined(all_unstressed(phones), " "@) == "AA R T"@ ==> romaji_of(phones) == Some(
            "aato"@,
        ),
        joined(all_unstressed(phones), " "@) == "AY S"@ ==> romaji_of(phones) == Some(
            "aisu"@,
        ),
        joined(all_unstressed(phones), " "@) == "AY D AH L"@ ==> romaji_of(phones) == Some(
            "aidoru"@,
        ),
        joined(all_unstressed(phones), " "@) == "K AH M P Y UW T ER"@ ==> romaji_of(phones) == Some(
            "konpyuutaa"@,
        ),
        joined(all_unstressed(phones), " "@) == "K IY"@ ==> romaji_of(phones) == Some(
            "kii"@,
        ),
        joined(all_unstressed(phones), " "@) == "HH OW L D ER"@ ==> romaji_of(phones) == Some(
            "horudaa"@,
        ),
        joined(all_unstressed(phones), " "@) == "K R IY M"@ ==> romaji_of(phones) == Some(
            "kuriimu"@,
        ),
        joined(all_unstressed(phones), " "@) == "S M AA R T F OW N"@ ==> romaji_of(phones) == Some(
            "sumaatofon"@,
        ),
        joined(all_unstressed(phones), " "@) == "G AE S AH L IY N"@ ==> romaji_of(phones) == Some(
            "gasorin"@,
        ),
        joined(all_unstressed(phones), " "@) == "S T AE N D"@ ==> romaji_of(phones) == Some(
            "sutando"@,
        ),
        joined(all_unstressed(phones), " "@) == "OW P AH N"@ ==> romaji_of(phones) == Some(
            "oopun"@,
        ),
        joined(all_unstressed(phones), " "@) == "K AE M P IH NG"@ ==> romaji_of(phones) == Some(
            "kyanpingu"@,
        ),
        joined(all_unstressed(phones), " "@) == "M AY"@ ==> romaji_of(phones) == Some(
            "mai"@,
        ),
        joined(all_unstressed(phones), " "@) == "T AY M"@ ==> romaji_of(phones) == Some(
            "taimu"@,
        ),
        joined(all_unstressed(phones), " "@) == "S EY L"@ ==> romaji_of(phones) == Some(
            "seeru"@,
        ),
        joined(all_unstressed(phones), " "@) == "P ER S IH N AH L"@ ==> romaji_of(phones) == Some(
            "paasonaru"@,
        ),
        joined(all_unstressed(phones), " "@) == "AE S K IY"@ ==> romaji_of(phones) == Some(
            "asukii"@,
        ),
{
    reveal_strlit("G AE L ER IY");
    assert("G AE L ER IY"@.len() == 12 && "G AE L ER IY"@[0] == 'G' && "G AE L ER IY"@[1] == ' '
        && "G AE L ER IY"@[2] == 'A' && "G AE L ER IY"@[3] == 'E' && "G AE L ER IY"@[4] == ' '
        && "G AE L ER IY"@[5] == 'L' && "G AE L ER IY"@[6] == ' ' && "G AE L ER IY"@[7] == 'E'
        && "G AE L ER IY"@[8] == 'R' && "G AE L ER IY"@[9] == ' ' && "G AE L ER IY"@[10] == 'I'
        && "G AE L ER IY"@[11] == 'Y');
    reveal_strlit("K AA R");
    assert("K AA R"@.len() == 6 && "K AA R"@[0] == 'K' && "K AA R"@[1] == ' '
        && "K AA R"@[2] == 'A' && "K AA R"@[3] == 'A' && "K AA R"@[4] == ' '
        && "K AA R"@[5] == 'R');
    reveal_strlit("AA R T");
    assert("AA R T"@.len() == 6 && "AA R T"@[0] == 'A' && "AA R T"@[1] == 'A'
        && "AA R T"@[2] == ' ' && "AA R T"@[3] == 'R' && "AA R T"@[4] == ' '
        && "AA R T"@[5] == 'T');
    reveal_strlit("AY S");
    assert("AY S"@.len() == 4 && "AY S"@[0] == 'A' && "AY S"@[1] == 'Y' && "AY S"@[2] == ' '
        && "AY S"@[3] == 'S');
    reveal_strlit("AY D AH L");
    assert("AY D AH L"@.len() == 9 && "AY D AH L"@[0] == 'A' && "AY D AH L"@[1] == 'Y'
        && "AY D AH L"@[2] == ' ' && "AY D AH L"@[3] == 'D' && "AY D AH L"@[4] == ' '
        && "AY D AH L"@[5] == 'A' && "AY D AH L"@[6] == 'H' && "AY D AH L"@[7] == ' '
        && "AY D AH L"@[8] == 'L');
    reveal_strlit("K AH M P Y UW T ER");
    assert("K AH M P Y UW T ER"@.len() == 18 && "K AH M P Y UW T ER"@[0] == 'K'
        && "K AH M P Y UW T ER"@[1] == ' ' && "K AH M P Y UW T ER"@[2] == 'A'
        && "K AH M P Y UW T ER"@[3] == 'H' && "K AH M P Y UW T ER"@[4] == ' '
        && "K AH M P Y UW T ER"@[5] == 'M' && "K AH M P Y UW T ER"@[6] == ' '
        && "K AH M P Y UW T ER"@[7] == 'P' && "K AH M P Y UW T ER"@[8] == ' '
        && "K AH M P Y UW T ER"@[9] == 'Y' && "K AH M P Y UW T ER"@[10] == ' '
        && "K AH M P Y UW T ER"@[11] == 'U' && "K AH M P Y UW T ER"@[12] == 'W'
        && "K AH M P Y UW T ER"@[13] == ' ' && "K AH M P Y UW T ER"@[14] == 'T'
        && "K AH M P Y UW T ER"@[15] == ' ' && "K AH M P Y UW T ER"@[16] == 'E'
        && "K AH M P Y UW T ER"@[17] == 'R');
    reveal_strlit("K IY");
    assert("K IY"@.len() == 4 && "K IY"@[0] == 'K' && "K IY"@[1] == ' ' && "K IY"@[2] == 'I'
        && "K IY"@[3] == 'Y');
    reveal_strlit("HH OW L D ER");
    assert("HH OW L D ER"@.len() == 12 && "HH OW L D ER"@[0] == 'H' && "HH OW L D ER"@[1] == 'H'
        && "HH OW L D ER"@[2] == ' ' && "HH OW L D ER"@[3] == 'O' && "HH OW L D ER"@[4] == 'W'
        && "HH OW L D ER"@[5] == ' ' && "HH OW L D ER"@[6] == 'L' && "HH OW L D ER"@[7] == ' '
        && "HH OW L D ER"@[8] == 'D' && "HH OW L D ER"@[9] == ' ' && "HH OW L D ER"@[10] == 'E'
        && "HH OW L D ER"@[11] == 'R');
    reveal_strlit("K R IY M");
    assert("K R IY M"@.len() == 8 && "K R IY M"@[0] == 'K' && "K R IY M"@[1] == ' '
        && "K R IY M"@[2] == 'R' && "K R IY M"@[3] == ' ' && "K R IY M"@[4] == 'I'
        && "K R IY M"@[5] == 'Y' && "K R IY M"@[6] == ' ' && "K R IY M"@[7] == 'M');
    reveal_strlit("S M AA R T F OW N");
    assert("S M AA R T F OW N"@.len() == 17 && "S M AA R T F OW N"@[0] == 'S'
        && "S M AA R T F OW N"@[1] == ' ' && "S M AA R T F OW N"@[2] == 'M'
        && "S M AA R T F OW N"@[3] == ' ' && "S M AA R T F OW N"@[4] == 'A'
        && "S M AA R T F OW N"@[5] == 'A' && "S M AA R T F OW N"@[6] == ' '
        && "S M AA R T F OW N"@[7] == 'R' && "S M AA R T F OW N"@[8] == ' '
        && "S M AA R T F OW N"@[9] == 'T' && "S M AA R T F OW N"@[10] == ' '
        && "S M AA R T F OW N"@[11] == 'F' && "S M AA R T F OW N"@[12] == ' '
        && "S M AA R T F OW N"@[13] == 'O' && "S M AA R T F OW N"@[14] == 'W'
        && "S M AA R T F OW N"@[15] == ' ' && "S M AA R T F OW N"@[16] == 'N');
    reveal_strlit("G AE S AH L IY N");
    assert("G AE S AH L IY N"@.len() == 16 && "G AE S AH L IY N"@[0] == 'G'
        && "G AE S AH L IY N"@[1] == ' ' && "G AE S AH L IY N"@[2] == 'A'
        && "G AE S AH L IY N"@[3] == 'E' && "G AE S AH L IY N"@[4] == ' '
        && "G AE S AH L IY N"@[5] == 'S' && "G AE S AH L IY N"@[6] == ' '
        && "G AE S AH L IY N"@[7] == 'A' && "G AE S AH L IY N"@[8] == 'H'
        && "G AE S AH L IY N"@[9] == ' ' && "G AE S AH L IY N"@[10] == 'L'
        && "G AE S AH L IY N"@[11] == ' ' && "G AE S AH L IY N"@[12] == 'I'
        && "G AE S AH L IY N"@[13] == 'Y' && "G AE S AH L IY N"@[14] == ' '
        && "G AE S AH L IY N"@[15] == 'N');
    reveal_strlit("S T AE N D");
    assert("S T AE N D"@.len() == 10 && "S T AE N D"@[0] == 'S' && "S T AE N D"@[1] == ' '
        && "S T AE N D"@[2] == 'T' && "S T AE N D"@[3] == ' ' && "S T AE N D"@[4] == 'A'
        && "S T AE N D"@[5] == 'E' && "S T AE N D"@[6] == ' ' && "S T AE N D"@[7] == 'N'
        && "S T AE N D"@[8] == ' ' && "S T AE N D"@[9] == 'D');
    reveal_strlit("OW P AH N");
    assert("OW P AH N"@.len() == 9 && "OW P AH N"@[0] == 'O' && "OW P AH N"@[1] == 'W'
        && "OW P AH N"@[2] == ' ' && "OW P AH N"@[3] == 'P' && "OW P AH N"@[4] == ' '
        && "OW P AH N"@[5] == 'A' && "OW P AH N"@[6] == 'H' && "OW P AH N"@[7] == ' '
        && "OW P AH N"@[8] == 'N');
    reveal_strlit("K AE M P IH NG");
    assert("K AE M P IH NG"@.len() == 14 && "K AE M P IH NG"@[0] == 'K'
        && "K AE M P IH NG"@[1] == ' ' && "K AE M P IH NG"@[2] == 'A'
        && "K AE M P IH NG"@[3] == 'E' && "K AE M P IH NG"@[4] == ' '
        && "K AE M P IH NG"@[5] == 'M' && "K AE M P IH NG"@[6] == ' '
        && "K AE M P IH NG"@[7] == 'P' && "K AE M P IH NG"@[8] == ' '
        && "K AE M P IH NG"@[9] == 'I' && "K AE M P IH NG"@[10] == 'H'
        && "K AE M P IH NG"@[11] == ' ' && "K AE M P IH NG"@[12] == 'N'
        && "K AE M P IH NG"@[13] == 'G');
    reveal_strlit("M AY");
    assert("M AY"@.len() == 4 && "M AY"@[0] == 'M' && "M AY"@[1] == ' ' && "M AY"@[2] == 'A'
        && "M AY"@[3] == 'Y');
    reveal_strlit("T AY M");
    assert("T AY M"@.len() == 6 && "T AY M"@[0] == 'T' && "T AY M"@[1] == ' '
        && "T AY M"@[2] == 'A' && "T AY M"@[3] == 'Y' && "T AY M"@[4] == ' '
        && "T AY M"@[5] == 'M');
    reveal_strlit("S EY L");
    assert("S EY L"@.len() == 6 && "S EY L"@[0] == 'S' && "S EY L"@[1] == ' '
        && "S EY L"@[2] == 'E' && "S EY L"@[3] == 'Y' && "S EY L"@[4] == ' '
        && "S EY L"@[5] == 'L');
    reveal_strlit("P ER S IH N AH L");
    assert("P ER S IH N AH L"@.len() == 16 && "P ER S IH N AH L"@[0] == 'P'
        && "P ER S IH N AH L"@[1] == ' ' && "P ER S IH N AH L"@[2] == 'E'
        && "P ER S IH N AH L"@[3] == 'R' && "P ER S IH N AH L"@[4] == ' '
        && "P ER S IH N AH L"@[5] == 'S' && "P ER S IH N AH L"@[6] == ' '
        && "P ER S IH N AH L"@[7] == 'I' && "P ER S IH N AH L"@[8] == 'H'
        && "P ER S IH N AH L"@[9] == ' ' && "P ER S IH N AH L"@[10] == 'N'
        && "P ER S IH N AH L"@[11] == ' ' && "P ER S IH N AH L"@[12] == 'A'
        && "P ER S IH N AH L"@[13] == 'H' && "P ER S IH N AH L"@[14] == ' '
        && "P ER S IH N AH L"@[15] == 'L');
    reveal_strlit("AE S K IY");
    assert("AE S K IY"@.len() == 9 && "AE S K IY"@[0] == 'A' && "AE S K IY"@[1] == 'E'
        && "AE S K IY"@[2] == ' ' && "AE S K IY"@[3] == 'S' && "AE S K IY"@[4] == ' '
        && "AE S K IY"@[5] == 'K' && "AE S K IY"@[6] == ' ' && "AE S K IY"@[7] == 'I'
        && "AE S K IY"@[8] == 'Y');
}

/// A consonant alone before the vowel behind it: nothing but the start of the word or a vowel
/// stands before it, and behind that at most an `R` that is not heard.
pub open spec fn stands_alone(phones: Seq<Seq<char>>, i: int) -> bool
    decreases i,
{
    ||| i <= 0
    ||| vowel_sound(phones[i - 1]) is Some
    ||| phones[i - 1] == "R"@ && i - 1 > 0 && stands_alone(phones, i - 1)
}

/// A vowel stands behind this place.
pub open spec fn has_later_vowel(phones: Seq<Seq<char>>, i: int) -> bool {
    exists|j: int| i < j < phones.len() && vowel_sound(#[trigger] phones[j]) is Some
}

/// The letters for the phone at a place.
///
/// A vowel has its own. A consonant before a vowel has its own, and a `y` behind it where a lone `G`
/// or `K` stands before `AE`. An `R` that no vowel follows at once has none. Any other consonant
/// before another one has a `u` behind its own letters. Where no vowel follows in the word, `N` and
/// `NG` are `n`, `L` is `ru`, `M` is `mu`, and other consonants have their own letters.
pub open spec fn letters_at(phones: Seq<Seq<char>>, i: int) -> Seq<char> {
    let phone = phones[i];
    if vowel_sound(phone) is Some {
        vowel_sound(phone)->0
    } else if i + 1 < phones.len() && vowel_sound(phones[i + 1]) is Some {
        if (phone == "G"@ || phone == "K"@) && phones[i + 1] == "AE"@ && stands_alone(phones, i) {
            consonant_sound(phone)->0 + "y"@
        } else {
            consonant_sound(phone)->0
        }
    } else if phone == "R"@ {
        ""@
    } else if has_later_vowel(phones, i) {
        consonant_sound(phone)->0 + "u"@
    } else if phone == "N"@ || phone == "NG"@ {
        "n"@
    } else if phone == "L"@ {
        "ru"@
    } else if phone == "M"@ {
        "mu"@
    } else {
        consonant_sound(phone)->0
    }
}

/// The letters for the first `count` phones.
pub open spec fn letters_of(phones: Seq<Seq<char>>, count: int) -> Seq<char>
    decreases count,
{
    if count <= 0 {
        Seq::empty()
    } else {
        letters_of(phones, count - 1) + letters_at(phones, count - 1)
    }
}

proof fn vowels_are_heard(phone: Seq<char>)
    requires
        vowel_sound(phone) is Some,
    ensures
        (vowel_sound(phone)->0).len() > 0,
{
    reveal_strlit("aa");
    reveal_strlit("a");
    reveal_strlit("o");
    reveal_strlit("au");
    reveal_strlit("ai");
    reveal_strlit("e");
    reveal_strlit("ei");
    reveal_strlit("i");
    reveal_strlit("ii");
    reveal_strlit("ou");
    reveal_strlit("oi");
    reveal_strlit("u");
    reveal_strlit("uu");
}

proof fn next_vowel_is_next(phones: Seq<Seq<char>>, index: int)
    requires
        0 <= index <= phones.len(),
    ensures
        index <= next_vowel(phones, index) <= phones.len(),
        next_vowel(phones, index) < phones.len() ==> vowel_sound(
            phones[next_vowel(phones, index)],
        ) is Some,
        forall|i: int|
            index <= i < next_vowel(phones, index) ==> vowel_sound(#[trigger] phones[i]) is None,
    decreases phones.len() - index,
{
    if index < phones.len() && vowel_sound(phones[index]) is None {
        next_vowel_is_next(phones, index + 1);
    }
}

proof fn inner_letters(phones: Seq<Seq<char>>, start: int, end: int, vowel: int)
    requires
        0 <= start <= end < vowel < phones.len(),
        vowel_sound(phones[vowel]) is Some,
        forall|i: int| start <= i < vowel ==> vowel_sound(#[trigger] phones[i]) is None,
        forall|i: int| 0 <= i < phones.len() ==> is_phone(#[trigger] phones[i]),
    ensures
        sounds_between(phones, start, end, false) is Some,
        letters_of(phones, end) == letters_of(phones, start) + sounds_between(
            phones,
            start,
            end,
            false,
        )->0,
    decreases end - start,
{
    reveal_strlit("");
    reveal_strlit("u");
    if start < end {
        inner_letters(phones, start, end - 1, vowel);
        let last = phones[end - 1];
        assert(is_phone(last));
        assert(vowel_sound(phones[end]) is None);
        assert(has_later_vowel(phones, end - 1)) by {
            assert(vowel_sound(phones[vowel]) is Some);
        }
        assert(letters_at(phones, end - 1) =~= inner_sound(last)->0);
        assert(letters_of(phones, end) =~= letters_of(phones, start) + sounds_between(
            phones,
            start,
            end,
            false,
        )->0);
    } else {
        assert(letters_of(phones, end) =~= letters_of(phones, start) + Seq::<char>::empty());
    }
}

proof fn closing_letters(phones: Seq<Seq<char>>, start: int, end: int)
    requires
        0 <= start <= end <= phones.len(),
        forall|i: int| start <= i < phones.len() ==> vowel_sound(#[trigger] phones[i]) is None,
        forall|i: int| 0 <= i < phones.len() ==> is_phone(#[trigger] phones[i]),
    ensures
        sounds_between(phones, start, end, true) is Some,
        letters_of(phones, end) == letters_of(phones, start) + sounds_between(
            phones,
            start,
            end,
            true,
        )->0,
    decreases end - start,
{
    reveal_strlit("");
    if start < end {
        closing_letters(phones, start, end - 1);
        let last = phones[end - 1];
        assert(is_phone(last));
        assert(!has_later_vowel(phones, end - 1));
        if end < phones.len() {
            assert(vowel_sound(phones[end]) is None);
        }
        assert(letters_at(phones, end - 1) =~= closing_sound(last)->0);
        assert(letters_of(phones, end) =~= letters_of(phones, start) + sounds_between(
            phones,
            start,
            end,
            true,
        )->0);
    } else {
        assert(letters_of(phones, end) =~= letters_of(phones, start) + Seq::<char>::empty());
    }
}

proof fn not_alone_behind(phones: Seq<Seq<char>>, start: int, i: int)
    requires
        0 <= start < i < phones.len(),
        start == 0 || phones[start] != "R"@,
        forall|j: int| start <= j < i ==> vowel_sound(#[trigger] phones[j]) is None,
    ensures
        !stands_alone(phones, i),
    decreases i - start,
{
    assert(vowel_sound(phones[i - 1]) is None);
    if i - 1 > start {
        not_alone_behind(phones, start, i - 1);
    }
}

proof fn spelled_by_place(phones: Seq<Seq<char>>, index: int, heard: Seq<char>)
    requires
        0 <= index <= phones.len(),
        forall|i: int| 0 <= i < phones.len() ==> is_phone(#[trigger] phones[i]),
        heard == letters_of(phones, index),
        stands_alone(phones, index),
        index > 0 ==> heard.len() > 0,
    ensures
        romaji_after(phones, index, heard) == Some(letters_of(phones, phones.len() as int)),
    decreases phones.len() - index,
{
    let length = phones.len() as int;
    reveal_strlit("");
    reveal_strlit("y");
    reveal_strlit("R");
    consonants_are_no_vowels();
    if index < length {
        next_vowel_is_next(phones, index);
        let end = next_vowel(phones, index);
        assert(is_phone(phones[index]));
        let letters = letters_of(phones, index + 1);
        assert(letters == heard + letters_at(phones, index));
        if crate::jmdict::pronunciation::is_silent(phones, index, heard) {
            assert(index > 0) by {
                if index == 0 {
                    assert(heard.len() == 0);
                }
            }
            assert(letters_at(phones, index) =~= Seq::<char>::empty());
            assert(letters =~= heard);
            spelled_by_place(phones, index + 1, heard);
        } else if vowel_sound(phones[index]) is Some {
            vowels_are_heard(phones[index]);
            spelled_by_place(phones, index + 1, letters);
        } else if end >= length {
            closing_letters(phones, index, length);
        } else {
            inner_letters(phones, index, end - 1, end);
            assert(vowel_sound(phones[end - 1]) is None);
            assert(is_phone(phones[end - 1]));
            if end - 1 > index {
                assert(phones[index] == "R"@ ==> index == 0) by {
                    if phones[index] == "R"@ && index > 0 {
                        assert(vowel_sound(phones[index + 1]) is None);
                    }
                }
                not_alone_behind(phones, index, end - 1);
            }
            let sounds = sounds_between(phones, index, end - 1, false)->0;
            let sound = onset(phones, index, end)->0;
            assert(letters_at(phones, end - 1) =~= sound);
            assert(letters_at(phones, end) == vowel_sound(phones[end])->0);
            vowels_are_heard(phones[end]);
            let next = heard + sounds + sound + vowel_sound(phones[end])->0;
            assert(letters_of(phones, end + 1) == letters_of(phones, end) + letters_at(
                phones,
                end,
            ));
            assert(letters_of(phones, end) == letters_of(phones, end - 1) + letters_at(
                phones,
                end - 1,
            ));
            assert(next =~= letters_of(phones, end + 1));
            spelled_by_place(phones, end + 1, next);
        }
    }
}

/// A pronunciation that is not settled, and all of whose phones are listed, is spelled phone by
/// phone: the letters for each depend on the phones around it, and stress does not count.
pub proof fn phones_are_spelled_by_place(phones: Seq<Seq<char>>)
    requires
        settled_romaji(joined(all_unstressed(phones), " "@)) is None,
        forall|i: int|
            0 <= i < phones.len() ==> is_phone(#[trigger] all_unstressed(phones)[i]),
    ensures
        romaji_of(phones) == Some(letters_of(all_unstressed(phones), phones.len() as int)),
{
    spelled_by_place(all_unstressed(phones), 0, Seq::empty());
}

proof fn settled_words_are_long(key: Seq<char>)
    requires
        settled_romaji(key) is Some,
    ensures
        key.len() >= 4,
        key.len() < 6 ==> key == "AY S"@ || key == "K IY"@ || key == "M AY"@,
{
    reveal_strlit("G AE L ER IY");
    reveal_strlit("K AA R");
    reveal_strlit("AA R T");
    reveal_strlit("AY S");
    reveal_strlit("AY D AH L");
    reveal_strlit("K AH M P Y UW T ER");
    reveal_strlit("K IY");
    reveal_strlit("HH OW L D ER");
    reveal_strlit("K R IY M");
    reveal_strlit("S M AA R T F OW N");
    reveal_strlit("G AE S AH L IY N");
    reveal_strlit("S T AE N D");
    reveal_strlit("OW P AH N");
    reveal_strlit("K AE M P IH NG");
    reveal_strlit("M AY");
    reveal_strlit("T AY M");
    reveal_strlit("S EY L");
    reveal_strlit("P ER S IH N AH L");
    reveal_strlit("AE S K IY");
}

/// A pronunciation of one vowel is spelled with these letters, whatever its stress.
pub proof fn lone_vowels_are_spelled(phones: Seq<Seq<char>>)
    requires
        phones.len() == 1,
    ensures
        unstressed(phones[0]) == "AA"@ ==> romaji_of(phones) == Some("aa"@),
        unstressed(phones[0]) == "AE"@ ==> romaji_of(phones) == Some("a"@),
        unstressed(phones[0]) == "AH"@ ==> romaji_of(phones) == Some("o"@),
        unstressed(phones[0]) == "AO"@ ==> romaji_of(phones) == Some("o"@),
        unstressed(phones[0]) == "AW"@ ==> romaji_of(phones) == Some("au"@),
        unstressed(phones[0]) == "AY"@ ==> romaji_of(phones) == Some("ai"@),
        unstressed(phones[0]) == "EH"@ ==> romaji_of(phones) == Some("e"@),
        unstressed(phones[0]) == "ER"@ ==> romaji_of(phones) == Some("aa"@),
        unstressed(phones[0]) == "EY"@ ==> romaji_of(phones) == Some("ei"@),
        unstressed(phones[0]) == "IH"@ ==> romaji_of(phones) == Some("i"@),
        unstressed(phones[0]) == "IY"@ ==> romaji_of(phones) == Some("ii"@),
        unstressed(phones[0]) == "OW"@ ==> romaji_of(phones) == Some("ou"@),
        unstressed(phones[0]) == "OY"@ ==> romaji_of(phones) == Some("oi"@),
        unstressed(phones[0]) == "UH"@ ==> romaji_of(phones) == Some("u"@),
        unstressed(phones[0]) == "UW"@ ==> romaji_of(phones) == Some("uu"@),
{
    let plain = all_unstressed(phones);
    let phone = unstressed(phones[0]);
    assert(plain =~= seq![phone]);
    assert(joined(plain, " "@) == phone);
    vowels_have_letters();
    reveal_strlit("AA");
    reveal_strlit("AE");
    reveal_strlit("AH");
    reveal_strlit("AO");
    reveal_strlit("AW");
    reveal_strlit("AY");
    reveal_strlit("EH");
    reveal_strlit("ER");
    reveal_strlit("EY");
    reveal_strlit("IH");
    reveal_strlit("IY");
    reveal_strlit("OW");
    reveal_strlit("OY");
    reveal_strlit("UH");
    reveal_strlit("UW");
    if vowel_sound(phone) is Some {
        if settled_romaji(phone) is Some {
            settled_words_are_long(phone);
        }
        assert(is_phone(plain[0]));
        phones_are_spelled_by_place(phones);
        assert(letters_of(plain, 1) =~= letters_at(plain, 0)) by {
            assert(letters_of(plain, 0) =~= Seq::<char>::empty());
        }
    }
}

/// A consonant before `AA` is spelled with these letters, whatever the stress.
pub proof fn consonants_are_spelled(phones: Seq<Seq<char>>)
    requires
        phones.len() == 2,
        unstressed(phones[1]) == "AA"@,
    ensures
        unstressed(phones[0]) == "P"@ ==> romaji_of(phones) == Some("p"@ + "aa"@),
        unstressed(phones[0]) == "B"@ ==> romaji_of(phones) == Some("b"@ + "aa"@),
        unstressed(phones[0]) == "M"@ ==> romaji_of(phones) == Some("m"@ + "aa"@),
        unstressed(phones[0]) == "F"@ ==> romaji_of(phones) == Some("f"@ + "aa"@),
        unstressed(phones[0]) == "V"@ ==> romaji_of(phones) == Some("v"@ + "aa"@),
        unstressed(phones[0]) == "T"@ ==> romaji_of(phones) == Some("t"@ + "aa"@),
        unstressed(phones[0]) == "D"@ ==> romaji_of(phones) == Some("d"@ + "aa"@),
        unstressed(phones[0]) == "K"@ ==> romaji_of(phones) == Some("k"@ + "aa"@),
        unstressed(phones[0]) == "G"@ ==> romaji_of(phones) == Some("g"@ + "aa"@),
        unstressed(phones[0]) == "S"@ ==> romaji_of(phones) == Some("s"@ + "aa"@),
        unstressed(phones[0]) == "Z"@ ==> romaji_of(phones) == Some("z"@ + "aa"@),
        unstressed(phones[0]) == "SH"@ ==> romaji_of(phones) == Some("sh"@ + "aa"@),
        unstressed(phones[0]) == "ZH"@ ==> romaji_of(phones) == Some("j"@ + "aa"@),
        unstressed(phones[0]) == "CH"@ ==> romaji_of(phones) == Some("ch"@ + "aa"@),
        unstressed(phones[0]) == "JH"@ ==> romaji_of(phones) == Some("j"@ + "aa"@),
        unstressed(phones[0]) == "N"@ ==> romaji_of(phones) == Some("n"@ + "aa"@),
        unstressed(phones[0]) == "NG"@ ==> romaji_of(phones) == Some("ng"@ + "aa"@),
        unstressed(phones[0]) == "HH"@ ==> romaji_of(phones) == Some("h"@ + "aa"@),
        unstressed(phones[0]) == "L"@ ==> romaji_of(phones) == Some("r"@ + "aa"@),
        unstressed(phones[0]) == "R"@ ==> romaji_of(phones) == Some("r"@ + "aa"@),
        unstressed(phones[0]) == "W"@ ==> romaji_of(phones) == Some("w"@ + "aa"@),
        unstressed(phones[0]) == "Y"@ ==> romaji_of(phones) == Some("y"@ + "aa"@),
        unstressed(phones[0]) == "TH"@ ==> romaji_of(phones) == Some("s"@ + "aa"@),
{
    let plain = all_unstressed(phones);
    let phone = unstressed(phones[0]);
    assert(plain =~= seq![phone, "AA"@]);
    let key = joined(plain, " "@);
    assert(plain.drop_last() =~= seq![phone]);
    assert(joined(seq![phone], " "@) == phone);
    assert(key == phone + " "@ + "AA"@);
    vowels_have_letters();
    consonants_have_letters();
    consonants_are_no_vowels();
    reveal_strlit(" ");
    reveal_strlit("AA");
    reveal_strlit("AE");
    assert("AE"@[1] == 'E' && "AA"@[1] == 'A');
    reveal_strlit("P");
    reveal_strlit("B");
    reveal_strlit("M");
    reveal_strlit("F");
    reveal_strlit("V");
    reveal_strlit("T");
    reveal_strlit("D");
    reveal_strlit("K");
    reveal_strlit("G");
    reveal_strlit("S");
    reveal_strlit("Z");
    reveal_strlit("SH");
    reveal_strlit("ZH");
    reveal_strlit("CH");
    reveal_strlit("JH");
    reveal_strlit("N");
    reveal_strlit("NG");
    reveal_strlit("HH");
    reveal_strlit("L");
    reveal_strlit("R");
    reveal_strlit("W");
    reveal_strlit("Y");
    reveal_strlit("TH");
    if consonant_sound(phone) is Some {
        assert(key.last() == 'A');
        if settled_romaji(key) is Some {
            settled_words_are_long(key);
            reveal_strlit("AY S");
            reveal_strlit("K IY");
            reveal_strlit("M AY");
            assert("AY S"@[3] == 'S' && "K IY"@[3] == 'Y' && "M AY"@[3] == 'Y');
            assert(key.len() < 6);
        }
        assert(is_phone(plain[0]) && is_phone(plain[1]));
        if vowel_sound(phone) is None {
            phones_are_spelled_by_place(phones);
            assert(letters_of(plain, 0) =~= Seq::<char>::empty());
            assert(letters_of(plain, 1) =~= letters_at(plain, 0));
            assert(letters_of(plain, 2) =~= letters_at(plain, 0) + letters_at(plain, 1));
        }
    }
}

/// A pronunciation that is not settled and has a phone besides these has no romaji.
pub proof fn other_phones_are_not_spelled(phones: Seq<Seq<char>>, i: int)
    requires
        settled_romaji(joined(all_unstressed(phones), " "@)) is None,
        0 <= i < phones.len(),
        unstressed(phones[i]) != "AA"@,
        unstressed(phones[i]) != "AE"@,
        unstressed(phones[i]) != "AH"@,
        unstressed(phones[i]) != "AO"@,
        unstressed(phones[i]) != "AW"@,
        unstressed(phones[i]) != "AY"@,
        unstressed(phones[i]) != "EH"@,
        unstressed(phones[i]) != "ER"@,
        unstressed(phones[i]) != "EY"@,
        unstressed(phones[i]) != "IH"@,
        unstressed(phones[i]) != "IY"@,
        unstressed(phones[i]) != "OW"@,
        unstressed(phones[i]) != "OY"@,
        unstressed(phones[i]) != "UH"@,
        unstressed(phones[i]) != "UW"@,
        unstressed(phones[i]) != "P"@,
        unstressed(phones[i]) != "B"@,
        unstressed(phones[i]) != "M"@,
        unstressed(phones[i]) != "F"@,
        unstressed(phones[i]) != "V"@,
        unstressed(phones[i]) != "T"@,
        unstressed(phones[i]) != "D"@,
        unstressed(phones[i]) != "K"@,
        unstressed(phones[i]) != "G"@,
        unstressed(phones[i]) != "S"@,
        unstressed(phones[i]) != "Z"@,
        unstressed(phones[i]) != "SH"@,
        unstressed(phones[i]) != "ZH"@,
        unstressed(phones[i]) != "CH"@,
        unstressed(phones[i]) != "JH"@,
        unstressed(phones[i]) != "N"@,
        unstressed(phones[i]) != "NG"@,
        unstressed(phones[i]) != "HH"@,
        unstressed(phones[i]) != "L"@,
        unstressed(phones[i]) != "R"@,
        unstressed(phones[i]) != "W"@,
        unstressed(phones[i]) != "Y"@,
        unstressed(phones[i]) != "TH"@,
    ensures
        romaji_of(phones) is None,
{
    crate::jmdict::pronunciation::listed_phones_are_spelled(phones);
    assert(!is_phone(all_unstressed(phones)[i]));
}

/// No word is settled but these.
pub proof fn other_words_are_not_settled(key: Seq<char>)
    requires
        settled_romaji(key) is Some,
    ensures
        ({
            ||| key == "G AE L ER IY"@
            ||| key == "K AA R"@
            ||| key == "AA R T"@
            ||| key == "AY S"@
            ||| key == "AY D AH L"@
            ||| key == "K AH M P Y UW T ER"@
            ||| key == "K IY"@
            ||| key == "HH OW L D ER"@
            ||| key == "K R IY M"@
            ||| key == "S M AA R T F OW N"@
            ||| key == "G AE S AH L IY N"@
            ||| key == "S T AE N D"@
            ||| key == "OW P AH N"@
            ||| key == "K AE M P IH NG"@
            ||| key == "M AY"@
            ||| key == "T AY M"@
            ||| key == "S EY L"@
            ||| key == "P ER S IH N AH L"@
            ||| key == "AE S K IY"@
        }),
{
}

/// The digits for stress are 0, 1 and 2 at the end of a phone; nothing else is taken off.
pub proof fn stress_is_taken_off(phone: Seq<char>)
    ensures
        unstressed(phone).len() <= phone.len(),
        unstressed(phone) == phone.take(unstressed(phone).len() as int),
        forall|i: int|
            unstressed(phone).len() <= i < phone.len() ==> (#[trigger] phone[i] == '0' || phone[i]
                == '1' || phone[i] == '2'),
        unstressed(phone).len() > 0 ==> unstressed(phone).last() != '0' && unstressed(phone).last()
            != '1' && unstressed(phone).last() != '2',
    decreases phone.len(),
{
    if phone.len() > 0 && (phone.last() == '0' || phone.last() == '1' || phone.last() == '2') {
        let shorter = phone.drop_last();
        stress_is_taken_off(shorter);
        assert(unstressed(phone) =~= phone.take(unstressed(phone).len() as int));
        assert forall|i: int| unstressed(phone).len() <= i < phone.len() implies (
        #[trigger] phone[i] == '0' || phone[i] == '1' || phone[i] == '2') by {
            if i < shorter.len() {
                assert(shorter[i] == phone[i]);
            }
        }
    } else {
        assert(phone.take(phone.len() as int) =~= phone);
    }
}

/// A pronunciation is that of a reading where its romaji can be written in katakana, and both are
/// the same once they are decomposed, written in hiragana, composed again, and their long vowels
/// written out.
pub proof fn whole_readings_are_compared(reading: Seq<char>, phones: Seq<Seq<char>>)
    ensures
        is_pronounced(reading, phones) <==> {
            &&& romaji_of(phones) is Some
            &&& katakana_of(romaji_of(phones)->0) is Some
            &&& with_vowels(nfc_of(hiragana_of(nfkd_of(reading)))) == with_vowels(
                nfc_of(hiragana_of(nfkd_of(katakana_of(romaji_of(phones)->0)->0))),
            )
        },
{
}

} // verus!
