//! The kana and romaji tables behind mora conversion: the romaji spelling of
//! each kana and kana digraph, and the romaji tokens accepted in a query,
//! normalized to the spelling the kana side produces.

use vstd::prelude::*;

verus! {

/// The view of an optional static string.
pub open spec fn opt_str_view(o: Option<&str>) -> Option<Seq<char>> {
    match o {
        Some(s) => Some(s@),
        None => None,
    }
}

/// Romaji of a single hiragana (small kana included), if it has one.
pub open spec fn single_mora_spec(c: char) -> Option<Seq<char>> {
    match c {
        'あ' => Some(seq!['a']),
        'い' => Some(seq!['i']),
        'う' => Some(seq!['u']),
        'え' => Some(seq!['e']),
        'お' => Some(seq!['o']),
        'か' => Some(seq!['k', 'a']),
        'き' => Some(seq!['k', 'i']),
        'く' => Some(seq!['k', 'u']),
        'け' => Some(seq!['k', 'e']),
        'こ' => Some(seq!['k', 'o']),
        'さ' => Some(seq!['s', 'a']),
        'し' => Some(seq!['s', 'h', 'i']),
        'す' => Some(seq!['s', 'u']),
        'せ' => Some(seq!['s', 'e']),
        'そ' => Some(seq!['s', 'o']),
        'た' => Some(seq!['t', 'a']),
        'ち' => Some(seq!['c', 'h', 'i']),
        'つ' => Some(seq!['t', 's', 'u']),
        'て' => Some(seq!['t', 'e']),
        'と' => Some(seq!['t', 'o']),
        'な' => Some(seq!['n', 'a']),
        'に' => Some(seq!['n', 'i']),
        'ぬ' => Some(seq!['n', 'u']),
        'ね' => Some(seq!['n', 'e']),
        'の' => Some(seq!['n', 'o']),
        'は' => Some(seq!['h', 'a']),
        'ひ' => Some(seq!['h', 'i']),
        'ふ' => Some(seq!['f', 'u']),
        'へ' => Some(seq!['h', 'e']),
        'ほ' => Some(seq!['h', 'o']),
        'ま' => Some(seq!['m', 'a']),
        'み' => Some(seq!['m', 'i']),
        'む' => Some(seq!['m', 'u']),
        'め' => Some(seq!['m', 'e']),
        'も' => Some(seq!['m', 'o']),
        'や' => Some(seq!['y', 'a']),
        'ゆ' => Some(seq!['y', 'u']),
        'よ' => Some(seq!['y', 'o']),
        'ら' => Some(seq!['r', 'a']),
        'り' => Some(seq!['r', 'i']),
        'る' => Some(seq!['r', 'u']),
        'れ' => Some(seq!['r', 'e']),
        'ろ' => Some(seq!['r', 'o']),
        'わ' => Some(seq!['w', 'a']),
        'を' => Some(seq!['w', 'o']),
        'ん' => Some(seq!['n']),
        'が' => Some(seq!['g', 'a']),
        'ぎ' => Some(seq!['g', 'i']),
        'ぐ' => Some(seq!['g', 'u']),
        'げ' => Some(seq!['g', 'e']),
        'ご' => Some(seq!['g', 'o']),
        'ざ' => Some(seq!['z', 'a']),
        'じ' => Some(seq!['j', 'i']),
        'ず' => Some(seq!['z', 'u']),
        'ぜ' => Some(seq!['z', 'e']),
        'ぞ' => Some(seq!['z', 'o']),
        'だ' => Some(seq!['d', 'a']),
        'ぢ' => Some(seq!['j', 'i']),
        'づ' => Some(seq!['z', 'u']),
        'で' => Some(seq!['d', 'e']),
        'ど' => Some(seq!['d', 'o']),
        'ば' => Some(seq!['b', 'a']),
        'び' => Some(seq!['b', 'i']),
        'ぶ' => Some(seq!['b', 'u']),
        'べ' => Some(seq!['b', 'e']),
        'ぼ' => Some(seq!['b', 'o']),
        'ぱ' => Some(seq!['p', 'a']),
        'ぴ' => Some(seq!['p', 'i']),
        'ぷ' => Some(seq!['p', 'u']),
        'ぺ' => Some(seq!['p', 'e']),
        'ぽ' => Some(seq!['p', 'o']),
        'ゔ' => Some(seq!['v', 'u']),
        'ぁ' => Some(seq!['a']),
        'ぃ' => Some(seq!['i']),
        'ぅ' => Some(seq!['u']),
        'ぇ' => Some(seq!['e']),
        'ぉ' => Some(seq!['o']),
        'ゃ' => Some(seq!['y', 'a']),
        'ゅ' => Some(seq!['y', 'u']),
        'ょ' => Some(seq!['y', 'o']),
        'ゎ' => Some(seq!['w', 'a']),
        _ => None,
    }
}

/// Romaji of a youon or foreign-sound digraph `ab`, if it is one. てぃ, でぃ
/// and とぅ are spelled `thi`, `dhi` and `twu`, spellings a query can type
/// (`ti`, `di` and `tu` are read as ち, ぢ and つ).
pub open spec fn youon_mora_spec(a: char, b: char) -> Option<Seq<char>> {
    match (a, b) {
        ('き', 'ゃ') => Some(seq!['k', 'y', 'a']),
        ('き', 'ゅ') => Some(seq!['k', 'y', 'u']),
        ('き', 'ょ') => Some(seq!['k', 'y', 'o']),
        ('ぎ', 'ゃ') => Some(seq!['g', 'y', 'a']),
        ('ぎ', 'ゅ') => Some(seq!['g', 'y', 'u']),
        ('ぎ', 'ょ') => Some(seq!['g', 'y', 'o']),
        ('し', 'ゃ') => Some(seq!['s', 'h', 'a']),
        ('し', 'ゅ') => Some(seq!['s', 'h', 'u']),
        ('し', 'ょ') => Some(seq!['s', 'h', 'o']),
        ('じ', 'ゃ') => Some(seq!['j', 'a']),
        ('じ', 'ゅ') => Some(seq!['j', 'u']),
        ('じ', 'ょ') => Some(seq!['j', 'o']),
        ('ち', 'ゃ') => Some(seq!['c', 'h', 'a']),
        ('ち', 'ゅ') => Some(seq!['c', 'h', 'u']),
        ('ち', 'ょ') => Some(seq!['c', 'h', 'o']),
        ('ぢ', 'ゃ') => Some(seq!['j', 'a']),
        ('ぢ', 'ゅ') => Some(seq!['j', 'u']),
        ('ぢ', 'ょ') => Some(seq!['j', 'o']),
        ('に', 'ゃ') => Some(seq!['n', 'y', 'a']),
        ('に', 'ゅ') => Some(seq!['n', 'y', 'u']),
        ('に', 'ょ') => Some(seq!['n', 'y', 'o']),
        ('ひ', 'ゃ') => Some(seq!['h', 'y', 'a']),
        ('ひ', 'ゅ') => Some(seq!['h', 'y', 'u']),
        ('ひ', 'ょ') => Some(seq!['h', 'y', 'o']),
        ('び', 'ゃ') => Some(seq!['b', 'y', 'a']),
        ('び', 'ゅ') => Some(seq!['b', 'y', 'u']),
        ('び', 'ょ') => Some(seq!['b', 'y', 'o']),
        ('ぴ', 'ゃ') => Some(seq!['p', 'y', 'a']),
        ('ぴ', 'ゅ') => Some(seq!['p', 'y', 'u']),
        ('ぴ', 'ょ') => Some(seq!['p', 'y', 'o']),
        ('み', 'ゃ') => Some(seq!['m', 'y', 'a']),
        ('み', 'ゅ') => Some(seq!['m', 'y', 'u']),
        ('み', 'ょ') => Some(seq!['m', 'y', 'o']),
        ('り', 'ゃ') => Some(seq!['r', 'y', 'a']),
        ('り', 'ゅ') => Some(seq!['r', 'y', 'u']),
        ('り', 'ょ') => Some(seq!['r', 'y', 'o']),
        ('ふ', 'ぁ') => Some(seq!['f', 'a']),
        ('ふ', 'ぃ') => Some(seq!['f', 'i']),
        ('ふ', 'ぇ') => Some(seq!['f', 'e']),
        ('ふ', 'ぉ') => Some(seq!['f', 'o']),
        ('う', 'ぃ') => Some(seq!['w', 'i']),
        ('う', 'ぇ') => Some(seq!['w', 'e']),
        ('う', 'ぉ') => Some(seq!['w', 'o']),
        ('ゔ', 'ぁ') => Some(seq!['v', 'a']),
        ('ゔ', 'ぃ') => Some(seq!['v', 'i']),
        ('ゔ', 'ぇ') => Some(seq!['v', 'e']),
        ('ゔ', 'ぉ') => Some(seq!['v', 'o']),
        ('て', 'ぃ') => Some(seq!['t', 'h', 'i']),
        ('で', 'ぃ') => Some(seq!['d', 'h', 'i']),
        ('と', 'ぅ') => Some(seq!['t', 'w', 'u']),
        ('ど', 'ぅ') => Some(seq!['d', 'u']),
        ('つ', 'ぁ') => Some(seq!['t', 's', 'a']),
        ('つ', 'ぃ') => Some(seq!['t', 's', 'i']),
        ('つ', 'ぇ') => Some(seq!['t', 's', 'e']),
        ('つ', 'ぉ') => Some(seq!['t', 's', 'o']),
        ('し', 'ぇ') => Some(seq!['s', 'h', 'e']),
        ('じ', 'ぇ') => Some(seq!['j', 'e']),
        ('ち', 'ぇ') => Some(seq!['c', 'h', 'e']),
        ('く', 'ぁ') => Some(seq!['k', 'w', 'a']),
        ('く', 'ぃ') => Some(seq!['k', 'w', 'i']),
        ('く', 'ぇ') => Some(seq!['k', 'w', 'e']),
        ('く', 'ぉ') => Some(seq!['k', 'w', 'o']),
        _ => None,
    }
}

/// Canonical mora of a 1-letter romaji query token, if it is one.
pub open spec fn plain_token1_spec(c0: char) -> Option<Seq<char>> {
    match c0 {
        'a' => Some(seq!['a']),
        'i' => Some(seq!['i']),
        'u' => Some(seq!['u']),
        'e' => Some(seq!['e']),
        'o' => Some(seq!['o']),
        'n' => Some(seq!['n']),
        _ => None,
    }
}

/// Canonical mora of a 2-letter romaji query token, if it is one.
pub open spec fn plain_token2_spec(c0: char, c1: char) -> Option<Seq<char>> {
    match (c0, c1) {
        ('k', 'a') => Some(seq!['k', 'a']),
        ('k', 'i') => Some(seq!['k', 'i']),
        ('k', 'u') => Some(seq!['k', 'u']),
        ('k', 'e') => Some(seq!['k', 'e']),
        ('k', 'o') => Some(seq!['k', 'o']),
        ('s', 'a') => Some(seq!['s', 'a']),
        ('s', 'i') => Some(seq!['s', 'h', 'i']),
        ('s', 'u') => Some(seq!['s', 'u']),
        ('s', 'e') => Some(seq!['s', 'e']),
        ('s', 'o') => Some(seq!['s', 'o']),
        ('t', 'a') => Some(seq!['t', 'a']),
        ('t', 'i') => Some(seq!['c', 'h', 'i']),
        ('t', 'u') => Some(seq!['t', 's', 'u']),
        ('t', 'e') => Some(seq!['t', 'e']),
        ('t', 'o') => Some(seq!['t', 'o']),
        ('n', 'a') => Some(seq!['n', 'a']),
        ('n', 'i') => Some(seq!['n', 'i']),
        ('n', 'u') => Some(seq!['n', 'u']),
        ('n', 'e') => Some(seq!['n', 'e']),
        ('n', 'o') => Some(seq!['n', 'o']),
        ('h', 'a') => Some(seq!['h', 'a']),
        ('h', 'i') => Some(seq!['h', 'i']),
        ('f', 'u') => Some(seq!['f', 'u']),
        ('h', 'u') => Some(seq!['f', 'u']),
        ('h', 'e') => Some(seq!['h', 'e']),
        ('h', 'o') => Some(seq!['h', 'o']),
        ('m', 'a') => Some(seq!['m', 'a']),
        ('m', 'i') => Some(seq!['m', 'i']),
        ('m', 'u') => Some(seq!['m', 'u']),
        ('m', 'e') => Some(seq!['m', 'e']),
        ('m', 'o') => Some(seq!['m', 'o']),
        ('y', 'a') => Some(seq!['y', 'a']),
        ('y', 'u') => Some(seq!['y', 'u']),
        ('y', 'o') => Some(seq!['y', 'o']),
        ('r', 'a') => Some(seq!['r', 'a']),
        ('r', 'i') => Some(seq!['r', 'i']),
        ('r', 'u') => Some(seq!['r', 'u']),
        ('r', 'e') => Some(seq!['r', 'e']),
        ('r', 'o') => Some(seq!['r', 'o']),
        ('w', 'a') => Some(seq!['w', 'a']),
        ('w', 'o') => Some(seq!['w', 'o']),
        ('g', 'a') => Some(seq!['g', 'a']),
        ('g', 'i') => Some(seq!['g', 'i']),
        ('g', 'u') => Some(seq!['g', 'u']),
        ('g', 'e') => Some(seq!['g', 'e']),
        ('g', 'o') => Some(seq!['g', 'o']),
        ('z', 'a') => Some(seq!['z', 'a']),
        ('j', 'i') => Some(seq!['j', 'i']),
        ('z', 'i') => Some(seq!['j', 'i']),
        ('z', 'u') => Some(seq!['z', 'u']),
        ('z', 'e') => Some(seq!['z', 'e']),
        ('z', 'o') => Some(seq!['z', 'o']),
        ('d', 'a') => Some(seq!['d', 'a']),
        ('d', 'i') => Some(seq!['j', 'i']),
        ('d', 'e') => Some(seq!['d', 'e']),
        ('d', 'o') => Some(seq!['d', 'o']),
        ('b', 'a') => Some(seq!['b', 'a']),
        ('b', 'i') => Some(seq!['b', 'i']),
        ('b', 'u') => Some(seq!['b', 'u']),
        ('b', 'e') => Some(seq!['b', 'e']),
        ('b', 'o') => Some(seq!['b', 'o']),
        ('p', 'a') => Some(seq!['p', 'a']),
        ('p', 'i') => Some(seq!['p', 'i']),
        ('p', 'u') => Some(seq!['p', 'u']),
        ('p', 'e') => Some(seq!['p', 'e']),
        ('p', 'o') => Some(seq!['p', 'o']),
        ('v', 'u') => Some(seq!['v', 'u']),
        ('j', 'a') => Some(seq!['j', 'a']),
        ('j', 'u') => Some(seq!['j', 'u']),
        ('j', 'o') => Some(seq!['j', 'o']),
        ('f', 'a') => Some(seq!['f', 'a']),
        ('f', 'i') => Some(seq!['f', 'i']),
        ('f', 'e') => Some(seq!['f', 'e']),
        ('f', 'o') => Some(seq!['f', 'o']),
        ('w', 'i') => Some(seq!['w', 'i']),
        ('w', 'e') => Some(seq!['w', 'e']),
        ('v', 'a') => Some(seq!['v', 'a']),
        ('v', 'i') => Some(seq!['v', 'i']),
        ('v', 'e') => Some(seq!['v', 'e']),
        ('v', 'o') => Some(seq!['v', 'o']),
        ('d', 'u') => Some(seq!['d', 'u']),
        ('j', 'e') => Some(seq!['j', 'e']),
        _ => None,
    }
}

/// Canonical mora of a 3-letter romaji query token, if it is one.
pub open spec fn plain_token3_spec(c0: char, c1: char, c2: char) -> Option<Seq<char>> {
    match (c0, c1, c2) {
        ('s', 'h', 'i') => Some(seq!['s', 'h', 'i']),
        ('c', 'h', 'i') => Some(seq!['c', 'h', 'i']),
        ('t', 's', 'u') => Some(seq!['t', 's', 'u']),
        ('k', 'y', 'a') => Some(seq!['k', 'y', 'a']),
        ('k', 'y', 'u') => Some(seq!['k', 'y', 'u']),
        ('k', 'y', 'o') => Some(seq!['k', 'y', 'o']),
        ('g', 'y', 'a') => Some(seq!['g', 'y', 'a']),
        ('g', 'y', 'u') => Some(seq!['g', 'y', 'u']),
        ('g', 'y', 'o') => Some(seq!['g', 'y', 'o']),
        ('s', 'h', 'a') => Some(seq!['s', 'h', 'a']),
        ('s', 'h', 'u') => Some(seq!['s', 'h', 'u']),
        ('s', 'h', 'o') => Some(seq!['s', 'h', 'o']),
        ('c', 'h', 'a') => Some(seq!['c', 'h', 'a']),
        ('c', 'h', 'u') => Some(seq!['c', 'h', 'u']),
        ('c', 'h', 'o') => Some(seq!['c', 'h', 'o']),
        ('n', 'y', 'a') => Some(seq!['n', 'y', 'a']),
        ('n', 'y', 'u') => Some(seq!['n', 'y', 'u']),
        ('n', 'y', 'o') => Some(seq!['n', 'y', 'o']),
        ('h', 'y', 'a') => Some(seq!['h', 'y', 'a']),
        ('h', 'y', 'u') => Some(seq!['h', 'y', 'u']),
        ('h', 'y', 'o') => Some(seq!['h', 'y', 'o']),
        ('b', 'y', 'a') => Some(seq!['b', 'y', 'a']),
        ('b', 'y', 'u') => Some(seq!['b', 'y', 'u']),
        ('b', 'y', 'o') => Some(seq!['b', 'y', 'o']),
        ('p', 'y', 'a') => Some(seq!['p', 'y', 'a']),
        ('p', 'y', 'u') => Some(seq!['p', 'y', 'u']),
        ('p', 'y', 'o') => Some(seq!['p', 'y', 'o']),
        ('m', 'y', 'a') => Some(seq!['m', 'y', 'a']),
        ('m', 'y', 'u') => Some(seq!['m', 'y', 'u']),
        ('m', 'y', 'o') => Some(seq!['m', 'y', 'o']),
        ('r', 'y', 'a') => Some(seq!['r', 'y', 'a']),
        ('r', 'y', 'u') => Some(seq!['r', 'y', 'u']),
        ('r', 'y', 'o') => Some(seq!['r', 'y', 'o']),
        ('t', 'h', 'i') => Some(seq!['t', 'h', 'i']),
        ('d', 'h', 'i') => Some(seq!['d', 'h', 'i']),
        ('t', 'w', 'u') => Some(seq!['t', 'w', 'u']),
        ('t', 's', 'a') => Some(seq!['t', 's', 'a']),
        ('t', 's', 'i') => Some(seq!['t', 's', 'i']),
        ('t', 's', 'e') => Some(seq!['t', 's', 'e']),
        ('t', 's', 'o') => Some(seq!['t', 's', 'o']),
        ('s', 'h', 'e') => Some(seq!['s', 'h', 'e']),
        ('c', 'h', 'e') => Some(seq!['c', 'h', 'e']),
        ('k', 'w', 'a') => Some(seq!['k', 'w', 'a']),
        ('k', 'w', 'i') => Some(seq!['k', 'w', 'i']),
        ('k', 'w', 'e') => Some(seq!['k', 'w', 'e']),
        ('k', 'w', 'o') => Some(seq!['k', 'w', 'o']),
        _ => None,
    }
}

/// Canonical mora of a romaji query token (one to three letters), normalizing
/// spelling variants such as `si` and `ti` to `shi` and `chi`.
pub open spec fn plain_token_spec(t: Seq<char>) -> Option<Seq<char>> {
    if t.len() == 1 {
        plain_token1_spec(t[0])
    } else if t.len() == 2 {
        plain_token2_spec(t[0], t[1])
    } else if t.len() == 3 {
        plain_token3_spec(t[0], t[1], t[2])
    } else {
        None
    }
}

/// Romaji of a single hiragana, if it has one.
pub fn single_mora(c: char) -> (r: Option<&'static str>)
    ensures
        opt_str_view(r) == single_mora_spec(c),
{
    match c {
        'あ' => {
            proof {
                reveal_strlit("a");
            }
            Some("a")
        },
        'い' => {
            proof {
                reveal_strlit("i");
            }
            Some("i")
        },
        'う' => {
            proof {
                reveal_strlit("u");
            }
            Some("u")
        },
        'え' => {
            proof {
                reveal_strlit("e");
            }
            Some("e")
        },
        'お' => {
            proof {
                reveal_strlit("o");
            }
            Some("o")
        },
        'か' => {
            proof {
                reveal_strlit("ka");
            }
            Some("ka")
        },
        'き' => {
            proof {
                reveal_strlit("ki");
            }
            Some("ki")
        },
        'く' => {
            proof {
                reveal_strlit("ku");
            }
            Some("ku")
        },
        'け' => {
            proof {
                reveal_strlit("ke");
            }
            Some("ke")
        },
        'こ' => {
            proof {
                reveal_strlit("ko");
            }
            Some("ko")
        },
        'さ' => {
            proof {
                reveal_strlit("sa");
            }
            Some("sa")
        },
        'し' => {
            proof {
                reveal_strlit("shi");
            }
            Some("shi")
        },
        'す' => {
            proof {
                reveal_strlit("su");
            }
            Some("su")
        },
        'せ' => {
            proof {
                reveal_strlit("se");
            }
            Some("se")
        },
        'そ' => {
            proof {
                reveal_strlit("so");
            }
            Some("so")
        },
        'た' => {
            proof {
                reveal_strlit("ta");
            }
            Some("ta")
        },
        'ち' => {
            proof {
                reveal_strlit("chi");
            }
            Some("chi")
        },
        'つ' => {
            proof {
                reveal_strlit("tsu");
            }
            Some("tsu")
        },
        'て' => {
            proof {
                reveal_strlit("te");
            }
            Some("te")
        },
        'と' => {
            proof {
                reveal_strlit("to");
            }
            Some("to")
        },
        'な' => {
            proof {
                reveal_strlit("na");
            }
            Some("na")
        },
        'に' => {
            proof {
                reveal_strlit("ni");
            }
            Some("ni")
        },
        'ぬ' => {
            proof {
                reveal_strlit("nu");
            }
            Some("nu")
        },
        'ね' => {
            proof {
                reveal_strlit("ne");
            }
            Some("ne")
        },
        'の' => {
            proof {
                reveal_strlit("no");
            }
            Some("no")
        },
        'は' => {
            proof {
                reveal_strlit("ha");
            }
            Some("ha")
        },
        'ひ' => {
            proof {
                reveal_strlit("hi");
            }
            Some("hi")
        },
        'ふ' => {
            proof {
                reveal_strlit("fu");
            }
            Some("fu")
        },
        'へ' => {
            proof {
                reveal_strlit("he");
            }
            Some("he")
        },
        'ほ' => {
            proof {
                reveal_strlit("ho");
            }
            Some("ho")
        },
        'ま' => {
            proof {
                reveal_strlit("ma");
            }
            Some("ma")
        },
        'み' => {
            proof {
                reveal_strlit("mi");
            }
            Some("mi")
        },
        'む' => {
            proof {
                reveal_strlit("mu");
            }
            Some("mu")
        },
        'め' => {
            proof {
                reveal_strlit("me");
            }
            Some("me")
        },
        'も' => {
            proof {
                reveal_strlit("mo");
            }
            Some("mo")
        },
        'や' => {
            proof {
                reveal_strlit("ya");
            }
            Some("ya")
        },
        'ゆ' => {
            proof {
                reveal_strlit("yu");
            }
            Some("yu")
        },
        'よ' => {
            proof {
                reveal_strlit("yo");
            }
            Some("yo")
        },
        'ら' => {
            proof {
                reveal_strlit("ra");
            }
            Some("ra")
        },
        'り' => {
            proof {
                reveal_strlit("ri");
            }
            Some("ri")
        },
        'る' => {
            proof {
                reveal_strlit("ru");
            }
            Some("ru")
        },
        'れ' => {
            proof {
                reveal_strlit("re");
            }
            Some("re")
        },
        'ろ' => {
            proof {
                reveal_strlit("ro");
            }
            Some("ro")
        },
        'わ' => {
            proof {
                reveal_strlit("wa");
            }
            Some("wa")
        },
        'を' => {
            proof {
                reveal_strlit("wo");
            }
            Some("wo")
        },
        'ん' => {
            proof {
                reveal_strlit("n");
            }
            Some("n")
        },
        'が' => {
            proof {
                reveal_strlit("ga");
            }
            Some("ga")
        },
        'ぎ' => {
            proof {
                reveal_strlit("gi");
            }
            Some("gi")
        },
        'ぐ' => {
            proof {
                reveal_strlit("gu");
            }
            Some("gu")
        },
        'げ' => {
            proof {
                reveal_strlit("ge");
            }
            Some("ge")
        },
        'ご' => {
            proof {
                reveal_strlit("go");
            }
            Some("go")
        },
        'ざ' => {
            proof {
                reveal_strlit("za");
            }
            Some("za")
        },
        'じ' => {
            proof {
                reveal_strlit("ji");
            }
            Some("ji")
        },
        'ず' => {
            proof {
                reveal_strlit("zu");
            }
            Some("zu")
        },
        'ぜ' => {
            proof {
                reveal_strlit("ze");
            }
            Some("ze")
        },
        'ぞ' => {
            proof {
                reveal_strlit("zo");
            }
            Some("zo")
        },
        'だ' => {
            proof {
                reveal_strlit("da");
            }
            Some("da")
        },
        'ぢ' => {
            proof {
                reveal_strlit("ji");
            }
            Some("ji")
        },
        'づ' => {
            proof {
                reveal_strlit("zu");
            }
            Some("zu")
        },
        'で' => {
            proof {
                reveal_strlit("de");
            }
            Some("de")
        },
        'ど' => {
            proof {
                reveal_strlit("do");
            }
            Some("do")
        },
        'ば' => {
            proof {
                reveal_strlit("ba");
            }
            Some("ba")
        },
        'び' => {
            proof {
                reveal_strlit("bi");
            }
            Some("bi")
        },
        'ぶ' => {
            proof {
                reveal_strlit("bu");
            }
            Some("bu")
        },
        'べ' => {
            proof {
                reveal_strlit("be");
            }
            Some("be")
        },
        'ぼ' => {
            proof {
                reveal_strlit("bo");
            }
            Some("bo")
        },
        'ぱ' => {
            proof {
                reveal_strlit("pa");
            }
            Some("pa")
        },
        'ぴ' => {
            proof {
                reveal_strlit("pi");
            }
            Some("pi")
        },
        'ぷ' => {
            proof {
                reveal_strlit("pu");
            }
            Some("pu")
        },
        'ぺ' => {
            proof {
                reveal_strlit("pe");
            }
            Some("pe")
        },
        'ぽ' => {
            proof {
                reveal_strlit("po");
            }
            Some("po")
        },
        'ゔ' => {
            proof {
                reveal_strlit("vu");
            }
            Some("vu")
        },
        'ぁ' => {
            proof {
                reveal_strlit("a");
            }
            Some("a")
        },
        'ぃ' => {
            proof {
                reveal_strlit("i");
            }
            Some("i")
        },
        'ぅ' => {
            proof {
                reveal_strlit("u");
            }
            Some("u")
        },
        'ぇ' => {
            proof {
                reveal_strlit("e");
            }
            Some("e")
        },
        'ぉ' => {
            proof {
                reveal_strlit("o");
            }
            Some("o")
        },
        'ゃ' => {
            proof {
                reveal_strlit("ya");
            }
            Some("ya")
        },
        'ゅ' => {
            proof {
                reveal_strlit("yu");
            }
            Some("yu")
        },
        'ょ' => {
            proof {
                reveal_strlit("yo");
            }
            Some("yo")
        },
        'ゎ' => {
            proof {
                reveal_strlit("wa");
            }
            Some("wa")
        },
        _ => None,
    }
}

/// Romaji of the digraph `ab`, if it is a youon or foreign-sound digraph.
pub fn youon_mora(a: char, b: char) -> (r: Option<&'static str>)
    ensures
        opt_str_view(r) == youon_mora_spec(a, b),
{
    match (a, b) {
        ('き', 'ゃ') => {
            proof {
                reveal_strlit("kya");
            }
            Some("kya")
        },
        ('き', 'ゅ') => {
            proof {
                reveal_strlit("kyu");
            }
            Some("kyu")
        },
        ('き', 'ょ') => {
            proof {
                reveal_strlit("kyo");
            }
            Some("kyo")
        },
        ('ぎ', 'ゃ') => {
            proof {
                reveal_strlit("gya");
            }
            Some("gya")
        },
        ('ぎ', 'ゅ') => {
            proof {
                reveal_strlit("gyu");
            }
            Some("gyu")
        },
        ('ぎ', 'ょ') => {
            proof {
                reveal_strlit("gyo");
            }
            Some("gyo")
        },
        ('し', 'ゃ') => {
            proof {
                reveal_strlit("sha");
            }
            Some("sha")
        },
        ('し', 'ゅ') => {
            proof {
                reveal_strlit("shu");
            }
            Some("shu")
        },
        ('し', 'ょ') => {
            proof {
                reveal_strlit("sho");
            }
            Some("sho")
        },
        ('じ', 'ゃ') => {
            proof {
                reveal_strlit("ja");
            }
            Some("ja")
        },
        ('じ', 'ゅ') => {
            proof {
                reveal_strlit("ju");
            }
            Some("ju")
        },
        ('じ', 'ょ') => {
            proof {
                reveal_strlit("jo");
            }
            Some("jo")
        },
        ('ち', 'ゃ') => {
            proof {
                reveal_strlit("cha");
            }
            Some("cha")
        },
        ('ち', 'ゅ') => {
            proof {
                reveal_strlit("chu");
            }
            Some("chu")
        },
        ('ち', 'ょ') => {
            proof {
                reveal_strlit("cho");
            }
            Some("cho")
        },
        ('ぢ', 'ゃ') => {
            proof {
                reveal_strlit("ja");
            }
            Some("ja")
        },
        ('ぢ', 'ゅ') => {
            proof {
                reveal_strlit("ju");
            }
            Some("ju")
        },
        ('ぢ', 'ょ') => {
            proof {
                reveal_strlit("jo");
            }
            Some("jo")
        },
        ('に', 'ゃ') => {
            proof {
                reveal_strlit("nya");
            }
            Some("nya")
        },
        ('に', 'ゅ') => {
            proof {
                reveal_strlit("nyu");
            }
            Some("nyu")
        },
        ('に', 'ょ') => {
            proof {
                reveal_strlit("nyo");
            }
            Some("nyo")
        },
        ('ひ', 'ゃ') => {
            proof {
                reveal_strlit("hya");
            }
            Some("hya")
        },
        ('ひ', 'ゅ') => {
            proof {
                reveal_strlit("hyu");
            }
            Some("hyu")
        },
        ('ひ', 'ょ') => {
            proof {
                reveal_strlit("hyo");
            }
            Some("hyo")
        },
        ('び', 'ゃ') => {
            proof {
                reveal_strlit("bya");
            }
            Some("bya")
        },
        ('び', 'ゅ') => {
            proof {
                reveal_strlit("byu");
            }
            Some("byu")
        },
        ('び', 'ょ') => {
            proof {
                reveal_strlit("byo");
            }
            Some("byo")
        },
        ('ぴ', 'ゃ') => {
            proof {
                reveal_strlit("pya");
            }
            Some("pya")
        },
        ('ぴ', 'ゅ') => {
            proof {
                reveal_strlit("pyu");
            }
            Some("pyu")
        },
        ('ぴ', 'ょ') => {
            proof {
                reveal_strlit("pyo");
            }
            Some("pyo")
        },
        ('み', 'ゃ') => {
            proof {
                reveal_strlit("mya");
            }
            Some("mya")
        },
        ('み', 'ゅ') => {
            proof {
                reveal_strlit("myu");
            }
            Some("myu")
        },
        ('み', 'ょ') => {
            proof {
                reveal_strlit("myo");
            }
            Some("myo")
        },
        ('り', 'ゃ') => {
            proof {
                reveal_strlit("rya");
            }
            Some("rya")
        },
        ('り', 'ゅ') => {
            proof {
                reveal_strlit("ryu");
            }
            Some("ryu")
        },
        ('り', 'ょ') => {
            proof {
                reveal_strlit("ryo");
            }
            Some("ryo")
        },
        ('ふ', 'ぁ') => {
            proof {
                reveal_strlit("fa");
            }
            Some("fa")
        },
        ('ふ', 'ぃ') => {
            proof {
                reveal_strlit("fi");
            }
            Some("fi")
        },
        ('ふ', 'ぇ') => {
            proof {
                reveal_strlit("fe");
            }
            Some("fe")
        },
        ('ふ', 'ぉ') => {
            proof {
                reveal_strlit("fo");
            }
            Some("fo")
        },
        ('う', 'ぃ') => {
            proof {
                reveal_strlit("wi");
            }
            Some("wi")
        },
        ('う', 'ぇ') => {
            proof {
                reveal_strlit("we");
            }
            Some("we")
        },
        ('う', 'ぉ') => {
            proof {
                reveal_strlit("wo");
            }
            Some("wo")
        },
        ('ゔ', 'ぁ') => {
            proof {
                reveal_strlit("va");
            }
            Some("va")
        },
        ('ゔ', 'ぃ') => {
            proof {
                reveal_strlit("vi");
            }
            Some("vi")
        },
        ('ゔ', 'ぇ') => {
            proof {
                reveal_strlit("ve");
            }
            Some("ve")
        },
        ('ゔ', 'ぉ') => {
            proof {
                reveal_strlit("vo");
            }
            Some("vo")
        },
        ('て', 'ぃ') => {
            proof {
                reveal_strlit("thi");
            }
            Some("thi")
        },
        ('で', 'ぃ') => {
            proof {
                reveal_strlit("dhi");
            }
            Some("dhi")
        },
        ('と', 'ぅ') => {
            proof {
                reveal_strlit("twu");
            }
            Some("twu")
        },
        ('ど', 'ぅ') => {
            proof {
                reveal_strlit("du");
            }
            Some("du")
        },
        ('つ', 'ぁ') => {
            proof {
                reveal_strlit("tsa");
            }
            Some("tsa")
        },
        ('つ', 'ぃ') => {
            proof {
                reveal_strlit("tsi");
            }
            Some("tsi")
        },
        ('つ', 'ぇ') => {
            proof {
                reveal_strlit("tse");
            }
            Some("tse")
        },
        ('つ', 'ぉ') => {
            proof {
                reveal_strlit("tso");
            }
            Some("tso")
        },
        ('し', 'ぇ') => {
            proof {
                reveal_strlit("she");
            }
            Some("she")
        },
        ('じ', 'ぇ') => {
            proof {
                reveal_strlit("je");
            }
            Some("je")
        },
        ('ち', 'ぇ') => {
            proof {
                reveal_strlit("che");
            }
            Some("che")
        },
        ('く', 'ぁ') => {
            proof {
                reveal_strlit("kwa");
            }
            Some("kwa")
        },
        ('く', 'ぃ') => {
            proof {
                reveal_strlit("kwi");
            }
            Some("kwi")
        },
        ('く', 'ぇ') => {
            proof {
                reveal_strlit("kwe");
            }
            Some("kwe")
        },
        ('く', 'ぉ') => {
            proof {
                reveal_strlit("kwo");
            }
            Some("kwo")
        },
        _ => None,
    }
}

/// Canonical mora of a 1-letter romaji query token, if it is one.
pub fn plain_token1(c0: char) -> (r: Option<&'static str>)
    ensures
        opt_str_view(r) == plain_token1_spec(c0),
{
    match c0 {
        'a' => {
            proof {
                reveal_strlit("a");
            }
            Some("a")
        },
        'i' => {
            proof {
                reveal_strlit("i");
            }
            Some("i")
        },
        'u' => {
            proof {
                reveal_strlit("u");
            }
            Some("u")
        },
        'e' => {
            proof {
                reveal_strlit("e");
            }
            Some("e")
        },
        'o' => {
            proof {
                reveal_strlit("o");
            }
            Some("o")
        },
        'n' => {
            proof {
                reveal_strlit("n");
            }
            Some("n")
        },
        _ => None,
    }
}

/// Canonical mora of a 2-letter romaji query token, if it is one.
pub fn plain_token2(c0: char, c1: char) -> (r: Option<&'static str>)
    ensures
        opt_str_view(r) == plain_token2_spec(c0, c1),
{
    match (c0, c1) {
        ('k', 'a') => {
            proof {
                reveal_strlit("ka");
            }
            Some("ka")
        },
        ('k', 'i') => {
            proof {
                reveal_strlit("ki");
            }
            Some("ki")
        },
        ('k', 'u') => {
            proof {
                reveal_strlit("ku");
            }
            Some("ku")
        },
        ('k', 'e') => {
            proof {
                reveal_strlit("ke");
            }
            Some("ke")
        },
        ('k', 'o') => {
            proof {
                reveal_strlit("ko");
            }
            Some("ko")
        },
        ('s', 'a') => {
            proof {
                reveal_strlit("sa");
            }
            Some("sa")
        },
        ('s', 'i') => {
            proof {
                reveal_strlit("shi");
            }
            Some("shi")
        },
        ('s', 'u') => {
            proof {
                reveal_strlit("su");
            }
            Some("su")
        },
        ('s', 'e') => {
            proof {
                reveal_strlit("se");
            }
            Some("se")
        },
        ('s', 'o') => {
            proof {
                reveal_strlit("so");
            }
            Some("so")
        },
        ('t', 'a') => {
            proof {
                reveal_strlit("ta");
            }
            Some("ta")
        },
        ('t', 'i') => {
            proof {
                reveal_strlit("chi");
            }
            Some("chi")
        },
        ('t', 'u') => {
            proof {
                reveal_strlit("tsu");
            }
            Some("tsu")
        },
        ('t', 'e') => {
            proof {
                reveal_strlit("te");
            }
            Some("te")
        },
        ('t', 'o') => {
            proof {
                reveal_strlit("to");
            }
            Some("to")
        },
        ('n', 'a') => {
            proof {
                reveal_strlit("na");
            }
            Some("na")
        },
        ('n', 'i') => {
            proof {
                reveal_strlit("ni");
            }
            Some("ni")
        },
        ('n', 'u') => {
            proof {
                reveal_strlit("nu");
            }
            Some("nu")
        },
        ('n', 'e') => {
            proof {
                reveal_strlit("ne");
            }
            Some("ne")
        },
        ('n', 'o') => {
            proof {
                reveal_strlit("no");
            }
            Some("no")
        },
        ('h', 'a') => {
            proof {
                reveal_strlit("ha");
            }
            Some("ha")
        },
        ('h', 'i') => {
            proof {
                reveal_strlit("hi");
            }
            Some("hi")
        },
        ('f', 'u') => {
            proof {
                reveal_strlit("fu");
            }
            Some("fu")
        },
        ('h', 'u') => {
            proof {
                reveal_strlit("fu");
            }
            Some("fu")
        },
        ('h', 'e') => {
            proof {
                reveal_strlit("he");
            }
            Some("he")
        },
        ('h', 'o') => {
            proof {
                reveal_strlit("ho");
            }
            Some("ho")
        },
        ('m', 'a') => {
            proof {
                reveal_strlit("ma");
            }
            Some("ma")
        },
        ('m', 'i') => {
            proof {
                reveal_strlit("mi");
            }
            Some("mi")
        },
        ('m', 'u') => {
            proof {
                reveal_strlit("mu");
            }
            Some("mu")
        },
        ('m', 'e') => {
            proof {
                reveal_strlit("me");
            }
            Some("me")
        },
        ('m', 'o') => {
            proof {
                reveal_strlit("mo");
            }
            Some("mo")
        },
        ('y', 'a') => {
            proof {
                reveal_strlit("ya");
            }
            Some("ya")
        },
        ('y', 'u') => {
            proof {
                reveal_strlit("yu");
            }
            Some("yu")
        },
        ('y', 'o') => {
            proof {
                reveal_strlit("yo");
            }
            Some("yo")
        },
        ('r', 'a') => {
            proof {
                reveal_strlit("ra");
            }
            Some("ra")
        },
        ('r', 'i') => {
            proof {
                reveal_strlit("ri");
            }
            Some("ri")
        },
        ('r', 'u') => {
            proof {
                reveal_strlit("ru");
            }
            Some("ru")
        },
        ('r', 'e') => {
            proof {
                reveal_strlit("re");
            }
            Some("re")
        },
        ('r', 'o') => {
            proof {
                reveal_strlit("ro");
            }
            Some("ro")
        },
        ('w', 'a') => {
            proof {
                reveal_strlit("wa");
            }
            Some("wa")
        },
        ('w', 'o') => {
            proof {
                reveal_strlit("wo");
            }
            Some("wo")
        },
        ('g', 'a') => {
            proof {
                reveal_strlit("ga");
            }
            Some("ga")
        },
        ('g', 'i') => {
            proof {
                reveal_strlit("gi");
            }
            Some("gi")
        },
        ('g', 'u') => {
            proof {
                reveal_strlit("gu");
            }
            Some("gu")
        },
        ('g', 'e') => {
            proof {
                reveal_strlit("ge");
            }
            Some("ge")
        },
        ('g', 'o') => {
            proof {
                reveal_strlit("go");
            }
            Some("go")
        },
        ('z', 'a') => {
            proof {
                reveal_strlit("za");
            }
            Some("za")
        },
        ('j', 'i') => {
            proof {
                reveal_strlit("ji");
            }
            Some("ji")
        },
        ('z', 'i') => {
            proof {
                reveal_strlit("ji");
            }
            Some("ji")
        },
        ('z', 'u') => {
            proof {
                reveal_strlit("zu");
            }
            Some("zu")
        },
        ('z', 'e') => {
            proof {
                reveal_strlit("ze");
            }
            Some("ze")
        },
        ('z', 'o') => {
            proof {
                reveal_strlit("zo");
            }
            Some("zo")
        },
        ('d', 'a') => {
            proof {
                reveal_strlit("da");
            }
            Some("da")
        },
        ('d', 'i') => {
            proof {
                reveal_strlit("ji");
            }
            Some("ji")
        },
        ('d', 'e') => {
            proof {
                reveal_strlit("de");
            }
            Some("de")
        },
        ('d', 'o') => {
            proof {
                reveal_strlit("do");
            }
            Some("do")
        },
        ('b', 'a') => {
            proof {
                reveal_strlit("ba");
            }
            Some("ba")
        },
        ('b', 'i') => {
            proof {
                reveal_strlit("bi");
            }
            Some("bi")
        },
        ('b', 'u') => {
            proof {
                reveal_strlit("bu");
            }
            Some("bu")
        },
        ('b', 'e') => {
            proof {
                reveal_strlit("be");
            }
            Some("be")
        },
        ('b', 'o') => {
            proof {
                reveal_strlit("bo");
            }
            Some("bo")
        },
        ('p', 'a') => {
            proof {
                reveal_strlit("pa");
            }
            Some("pa")
        },
        ('p', 'i') => {
            proof {
                reveal_strlit("pi");
            }
            Some("pi")
        },
        ('p', 'u') => {
            proof {
                reveal_strlit("pu");
            }
            Some("pu")
        },
        ('p', 'e') => {
            proof {
                reveal_strlit("pe");
            }
            Some("pe")
        },
        ('p', 'o') => {
            proof {
                reveal_strlit("po");
            }
            Some("po")
        },
        ('v', 'u') => {
            proof {
                reveal_strlit("vu");
            }
            Some("vu")
        },
        ('j', 'a') => {
            proof {
                reveal_strlit("ja");
            }
            Some("ja")
        },
        ('j', 'u') => {
            proof {
                reveal_strlit("ju");
            }
            Some("ju")
        },
        ('j', 'o') => {
            proof {
                reveal_strlit("jo");
            }
            Some("jo")
        },
        ('f', 'a') => {
            proof {
                reveal_strlit("fa");
            }
            Some("fa")
        },
        ('f', 'i') => {
            proof {
                reveal_strlit("fi");
            }
            Some("fi")
        },
        ('f', 'e') => {
            proof {
                reveal_strlit("fe");
            }
            Some("fe")
        },
        ('f', 'o') => {
            proof {
                reveal_strlit("fo");
            }
            Some("fo")
        },
        ('w', 'i') => {
            proof {
                reveal_strlit("wi");
            }
            Some("wi")
        },
        ('w', 'e') => {
            proof {
                reveal_strlit("we");
            }
            Some("we")
        },
        ('v', 'a') => {
            proof {
                reveal_strlit("va");
            }
            Some("va")
        },
        ('v', 'i') => {
            proof {
                reveal_strlit("vi");
            }
            Some("vi")
        },
        ('v', 'e') => {
            proof {
                reveal_strlit("ve");
            }
            Some("ve")
        },
        ('v', 'o') => {
            proof {
                reveal_strlit("vo");
            }
            Some("vo")
        },
        ('d', 'u') => {
            proof {
                reveal_strlit("du");
            }
            Some("du")
        },
        ('j', 'e') => {
            proof {
                reveal_strlit("je");
            }
            Some("je")
        },
        _ => None,
    }
}

/// Canonical mora of a 3-letter romaji query token, if it is one.
pub fn plain_token3(c0: char, c1: char, c2: char) -> (r: Option<&'static str>)
    ensures
        opt_str_view(r) == plain_token3_spec(c0, c1, c2),
{
    match (c0, c1, c2) {
        ('s', 'h', 'i') => {
            proof {
                reveal_strlit("shi");
            }
            Some("shi")
        },
        ('c', 'h', 'i') => {
            proof {
                reveal_strlit("chi");
            }
            Some("chi")
        },
        ('t', 's', 'u') => {
            proof {
                reveal_strlit("tsu");
            }
            Some("tsu")
        },
        ('k', 'y', 'a') => {
            proof {
                reveal_strlit("kya");
            }
            Some("kya")
        },
        ('k', 'y', 'u') => {
            proof {
                reveal_strlit("kyu");
            }
            Some("kyu")
        },
        ('k', 'y', 'o') => {
            proof {
                reveal_strlit("kyo");
            }
            Some("kyo")
        },
        ('g', 'y', 'a') => {
            proof {
                reveal_strlit("gya");
            }
            Some("gya")
        },
        ('g', 'y', 'u') => {
            proof {
                reveal_strlit("gyu");
            }
            Some("gyu")
        },
        ('g', 'y', 'o') => {
            proof {
                reveal_strlit("gyo");
            }
            Some("gyo")
        },
        ('s', 'h', 'a') => {
            proof {
                reveal_strlit("sha");
            }
            Some("sha")
        },
        ('s', 'h', 'u') => {
            proof {
                reveal_strlit("shu");
            }
            Some("shu")
        },
        ('s', 'h', 'o') => {
            proof {
                reveal_strlit("sho");
            }
            Some("sho")
        },
        ('c', 'h', 'a') => {
            proof {
                reveal_strlit("cha");
            }
            Some("cha")
        },
        ('c', 'h', 'u') => {
            proof {
                reveal_strlit("chu");
            }
            Some("chu")
        },
        ('c', 'h', 'o') => {
            proof {
                reveal_strlit("cho");
            }
            Some("cho")
        },
        ('n', 'y', 'a') => {
            proof {
                reveal_strlit("nya");
            }
            Some("nya")
        },
        ('n', 'y', 'u') => {
            proof {
                reveal_strlit("nyu");
            }
            Some("nyu")
        },
        ('n', 'y', 'o') => {
            proof {
                reveal_strlit("nyo");
            }
            Some("nyo")
        },
        ('h', 'y', 'a') => {
            proof {
                reveal_strlit("hya");
            }
            Some("hya")
        },
        ('h', 'y', 'u') => {
            proof {
                reveal_strlit("hyu");
            }
            Some("hyu")
        },
        ('h', 'y', 'o') => {
            proof {
                reveal_strlit("hyo");
            }
            Some("hyo")
        },
        ('b', 'y', 'a') => {
            proof {
                reveal_strlit("bya");
            }
            Some("bya")
        },
        ('b', 'y', 'u') => {
            proof {
                reveal_strlit("byu");
            }
            Some("byu")
        },
        ('b', 'y', 'o') => {
            proof {
                reveal_strlit("byo");
            }
            Some("byo")
        },
        ('p', 'y', 'a') => {
            proof {
                reveal_strlit("pya");
            }
            Some("pya")
        },
        ('p', 'y', 'u') => {
            proof {
                reveal_strlit("pyu");
            }
            Some("pyu")
        },
        ('p', 'y', 'o') => {
            proof {
                reveal_strlit("pyo");
            }
            Some("pyo")
        },
        ('m', 'y', 'a') => {
            proof {
                reveal_strlit("mya");
            }
            Some("mya")
        },
        ('m', 'y', 'u') => {
            proof {
                reveal_strlit("myu");
            }
            Some("myu")
        },
        ('m', 'y', 'o') => {
            proof {
                reveal_strlit("myo");
            }
            Some("myo")
        },
        ('r', 'y', 'a') => {
            proof {
                reveal_strlit("rya");
            }
            Some("rya")
        },
        ('r', 'y', 'u') => {
            proof {
                reveal_strlit("ryu");
            }
            Some("ryu")
        },
        ('r', 'y', 'o') => {
            proof {
                reveal_strlit("ryo");
            }
            Some("ryo")
        },
        ('t', 'h', 'i') => {
            proof {
                reveal_strlit("thi");
            }
            Some("thi")
        },
        ('d', 'h', 'i') => {
            proof {
                reveal_strlit("dhi");
            }
            Some("dhi")
        },
        ('t', 'w', 'u') => {
            proof {
                reveal_strlit("twu");
            }
            Some("twu")
        },
        ('t', 's', 'a') => {
            proof {
                reveal_strlit("tsa");
            }
            Some("tsa")
        },
        ('t', 's', 'i') => {
            proof {
                reveal_strlit("tsi");
            }
            Some("tsi")
        },
        ('t', 's', 'e') => {
            proof {
                reveal_strlit("tse");
            }
            Some("tse")
        },
        ('t', 's', 'o') => {
            proof {
                reveal_strlit("tso");
            }
            Some("tso")
        },
        ('s', 'h', 'e') => {
            proof {
                reveal_strlit("she");
            }
            Some("she")
        },
        ('c', 'h', 'e') => {
            proof {
                reveal_strlit("che");
            }
            Some("che")
        },
        ('k', 'w', 'a') => {
            proof {
                reveal_strlit("kwa");
            }
            Some("kwa")
        },
        ('k', 'w', 'i') => {
            proof {
                reveal_strlit("kwi");
            }
            Some("kwi")
        },
        ('k', 'w', 'e') => {
            proof {
                reveal_strlit("kwe");
            }
            Some("kwe")
        },
        ('k', 'w', 'o') => {
            proof {
                reveal_strlit("kwo");
            }
            Some("kwo")
        },
        _ => None,
    }
}


/// Normalizing a query token is idempotent: the canonical mora a token reads
/// as is itself a token, and reads as itself.
pub proof fn lemma_plain_token_idempotent(t: Seq<char>)
    requires
        plain_token_spec(t) is Some,
    ensures
        plain_token_spec(plain_token_spec(t)->0) == plain_token_spec(t),
{
}

/// The spelling of every single kana is a query token that reads as itself,
/// so typing a kana's romaji finds that kana.
pub proof fn lemma_single_mora_reads_back(c: char)
    requires
        single_mora_spec(c) is Some,
    ensures
        plain_token_spec(single_mora_spec(c)->0) == single_mora_spec(c),
{
}

/// The spelling of every kana digraph is a query token that reads as itself,
/// so typing a digraph's romaji finds that digraph.
pub proof fn lemma_youon_mora_reads_back(a: char, b: char)
    requires
        youon_mora_spec(a, b) is Some,
    ensures
        plain_token_spec(youon_mora_spec(a, b)->0) == youon_mora_spec(a, b),
{
}

} // verus!
