use crate::letter::{is_tile_text, letters_of, Letter};
use vstd::multiset::Multiset;
use vstd::prelude::*;

verus! {

/// Whether the tiles cover the needed letters when they are taken one after the other:
/// for each needed letter a tile of that letter where one is left, else a blank where
/// one is left.
pub open spec fn greedy_covers(tiles: Multiset<Letter>, needed: Seq<Letter>) -> bool
    decreases needed.len(),
{
    if needed.len() == 0 {
        true
    } else if tiles.count(needed[0]) > 0 {
        greedy_covers(tiles.remove(needed[0]), needed.drop_first())
    } else if tiles.count(Letter::Blank) > 0 {
        greedy_covers(tiles.remove(Letter::Blank), needed.drop_first())
    } else {
        false
    }
}

/// Whether the rack can spell the text: every character is a tile, and the tiles of
/// the rack cover the letters of the text, its blanks standing for any letter.
pub open spec fn spells(rack: Seq<Letter>, text: Seq<char>) -> bool {
    is_tile_text(text) && greedy_covers(rack.to_multiset(), letters_of(text))
}

/// The tiles that show a letter: the tiles without the blanks.
pub open spec fn lettered(tiles: Multiset<Letter>) -> Multiset<Letter> {
    tiles.filter(|tile: Letter| tile != Letter::Blank)
}

/// How many of the needed letters no tile of their own letter is left for; a needed
/// blank counts among them, since only a blank stands for it.
pub open spec fn shortfall(tiles: Multiset<Letter>, needed: Seq<Letter>) -> nat {
    needed.to_multiset().sub(lettered(tiles)).len()
}

/// Taking the tiles one after the other, a tile of the letter before a blank, covers
/// the needed letters exactly where the needed letters, as a multiset, are contained
/// in the tiles once each blank stands for a letter that is short.
pub proof fn lemma_greedy_is_containment(tiles: Multiset<Letter>, needed: Seq<Letter>)
    ensures
        greedy_covers(tiles, needed) <==> shortfall(tiles, needed) <= tiles.count(Letter::Blank),
    decreases needed.len(),
{
    broadcast use vstd::multiset::group_multiset_axioms;

    let own = lettered(tiles);
    if needed.len() == 0 {
        needed.to_multiset_ensures();
        assert(needed.to_multiset().sub(own) =~= Multiset::<Letter>::empty());
    } else {
        let first = needed[0];
        let rest = needed.drop_first();
        let all = needed.to_multiset();
        let others = rest.to_multiset();
        assert(all =~= others.insert(first)) by {
            let single = seq![first];
            assert(needed =~= single + rest);
            vstd::seq_lib::lemma_multiset_commutative(single, rest);
            assert(single =~= Seq::<Letter>::empty().push(first));
            Seq::<Letter>::empty().to_multiset_ensures();
        }
        if first != Letter::Blank && tiles.count(first) > 0 {
            let left = tiles.remove(first);
            assert(lettered(left) =~= own.remove(first));
            assert(all.sub(own) =~= others.sub(lettered(left)));
            lemma_greedy_is_containment(left, rest);
        } else if tiles.count(Letter::Blank) > 0 {
            let left = tiles.remove(Letter::Blank);
            assert(lettered(left) =~= own);
            assert(own.count(first) == 0);
            assert(all.sub(own) =~= others.sub(own).insert(first));
            lemma_greedy_is_containment(left, rest);
        } else {
            assert(own.count(first) == 0);
            assert(all.sub(own).count(first) >= 1);
        }
    }
}

} // verus!
