//! Parsing of `tachylyte://` deep links.
use vstd::prelude::*;
use crate::text::{chars_of, find_from, find_seq, index_of, index_of_in, lemma_find_from_agrees, match_at, match_at_exec, string_of};
use crate::textmap::TextMap;

verus! {

#[derive(Clone)]
pub struct DeepLink {
    pub action: String,
    pub target: Option<String>,
    pub params: TextMap<String>,
}

/// Adds `key=value` from one query piece; a piece without `=` adds nothing.
pub open spec fn add_param(m: Map<Seq<char>, Seq<char>>, piece: Seq<char>) -> Map<Seq<char>, Seq<char>> {
    match index_of(piece, '=') {
        Some(e) => m.insert(piece.take(e), piece.skip(e + 1)),
        None => m,
    }
}

/// The parameters of query `q`: its `&`-separated pieces added in order, so a
/// later repetition of a key wins.
pub open spec fn params_from(m: Map<Seq<char>, Seq<char>>, q: Seq<char>) -> Map<Seq<char>, Seq<char>>
    decreases q.len(),
{
    match index_of(q, '&') {
        Some(j) => if 0 <= j < q.len() {
            params_from(add_param(m, q.take(j)), q.skip(j + 1))
        } else {
            m
        },
        None => add_param(m, q),
    }
}

/// The action and parameters of a `tachylyte://action?k=v&...` link.
pub open spec fn spec_deep_link(raw: Seq<char>) -> Option<(Seq<char>, Map<Seq<char>, Seq<char>>)> {
    match find_seq(raw, "://"@) {
        None => None,
        Some(i) => if raw.take(i) != "tachylyte"@ {
            None
        } else {
            let rest = raw.skip(i + 3);
            match index_of(rest, '?') {
                Some(j) => Some((rest.take(j), params_from(Map::empty(), rest.skip(j + 1)))),
                None => Some((rest, params_from(Map::empty(), Seq::empty()))),
            }
        },
    }
}

/// The parameter map with values taken as characters.
pub open spec fn text_values(m: Map<Seq<char>, String>) -> Map<Seq<char>, Seq<char>> {
    m.map_values(|v: String| v@)
}

fn add_piece(cs: &Vec<char>, a: usize, b: usize, params: &mut TextMap<String>)
    requires
        a <= b <= cs@.len(),
    ensures
        text_values(final(params).map()) == add_param(text_values(old(params).map()), cs@.subrange(a as int, b as int)),
{
    let piece = Ghost(cs@.subrange(a as int, b as int));
    proof {
        crate::text::lemma_index_of(piece@, '=');
    }
    match index_of_in(cs, a, b, '=') {
        Some(e) => {
            let k = string_of(cs, a, e);
            let v = string_of(cs, e + 1, b);
            proof {
                assert(k@ =~= piece@.take(e - a));
                assert(v@ =~= piece@.skip(e - a + 1));
            }
            params.insert(k, v);
            proof {
                assert(text_values(params.map()) =~= text_values(old(params).map()).insert(k@, v@));
            }
        },
        None => {},
    }
}

/// Parses a deep link; `None` unless the scheme is exactly `tachylyte`.
pub fn parse(raw: &str) -> (r: Option<DeepLink>)
    ensures
        spec_deep_link(raw@) is None ==> r is None,
        spec_deep_link(raw@) matches Some((action, params)) ==> (r matches Some(d)
            && d.action@ == action && d.target is None && text_values(d.params.map()) == params),
{
    let cs = chars_of(raw);
    let n = cs.len();
    let sep = chars_of("://");
    let found = find_from(&cs, 0, &sep);
    proof {
        lemma_find_from_agrees(cs@, 0, sep@, match found { Some(i) => Some(i as int), None => None });
        assert(cs@.skip(0) =~= cs@);
    }
    let i = match found {
        None => return None,
        Some(i) => i,
    };
    proof {
        reveal_strlit("://");
        assert(sep@.len() == 3);
        assert(match_at(cs@, i as int, sep@));
    }
    let scheme = chars_of("tachylyte");
    if !(i == scheme.len() && match_at_exec(&cs, 0, &scheme)) {
        proof {
            if cs@.take(i as int) == scheme@ {
                assert(cs@.skip(0).take(scheme@.len() as int) =~= cs@.take(i as int));
            }
        }
        return None;
    }
    proof {
        assert(cs@.take(i as int) =~= cs@.skip(0).take(scheme@.len() as int));
    }
    let start = i + 3;
    let ghost rest = cs@.skip(start as int);
    proof {
        assert(cs@.subrange(start as int, n as int) =~= rest);
    }
    let q = index_of_in(&cs, start, n, '?');
    let (action_end, qstart) = match q {
        Some(j) => (j, j + 1),
        None => (n, n),
    };
    let action = string_of(&cs, start, action_end);
    let mut params: TextMap<String> = TextMap::new();
    let ghost goal = match index_of(rest, '?') {
        Some(j) => params_from(Map::empty(), rest.skip(j + 1)),
        None => params_from(Map::empty(), Seq::empty()),
    };
    proof {
        assert(text_values(params.map()) =~= Map::<Seq<char>, Seq<char>>::empty());
        if let Some(j) = index_of(rest, '?') {
            assert(qstart == start + j + 1);
            assert(rest.skip(j + 1) =~= cs@.skip(qstart as int));
        } else {
            assert(cs@.skip(qstart as int) =~= Seq::<char>::empty());
        }
    }
    let mut pos = qstart;
    loop
        invariant
            qstart <= pos <= n,
            n == cs@.len(),
            goal == params_from(text_values(params.map()), cs@.skip(pos as int)),
        ensures
            goal == text_values(params.map()),
        decreases n - pos,
    {
        let ghost before = text_values(params.map());
        let ghost tail = cs@.skip(pos as int);
        proof {
            assert(cs@.subrange(pos as int, n as int) =~= tail);
        }
        match index_of_in(&cs, pos, n, '&') {
            Some(j) => {
                proof {
                    assert(index_of(tail, '&') == Some((j - pos) as int));
                }
                add_piece(&cs, pos, j, &mut params);
                proof {
                    assert(tail.take(j - pos) =~= cs@.subrange(pos as int, j as int));
                    assert(tail.skip(j - pos + 1) =~= cs@.skip(j + 1));
                }
                pos = j + 1;
            },
            None => {
                proof {
                    assert(index_of(tail, '&') is None);
                }
                add_piece(&cs, pos, n, &mut params);
                break;
            },
        }
    }
    proof {
        match index_of(rest, '?') {
            Some(j) => {
                assert(action_end == start + j);
                assert(action@ =~= rest.take(j));
            },
            None => {
                assert(action@ =~= rest);
            },
        }
    }
    Some(DeepLink { action, target: None, params })
}

} // verus!
