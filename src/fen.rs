//! The text side of the Forsyth-Edwards encoding: splitting a FEN string into
//! its fields and ranks, and the rules each field must follow.

use vstd::prelude::*;

verus! {

/// The separators between FEN fields: the characters that Unicode counts as
/// white space.
pub open spec fn is_ws(c: char) -> bool {
    ('\u{9}' <= c && c <= '\u{D}') || c == ' ' || c == '\u{85}' || c == '\u{A0}' || c == '\u{1680}'
        || ('\u{2000}' <= c && c <= '\u{200A}') || c == '\u{2028}' || c == '\u{2029}' || c == '\u{202F}'
        || c == '\u{205F}' || c == '\u{3000}'
}

/// Whether `c` separates FEN fields.
pub fn is_separator(c: char) -> (r: bool)
    ensures
        r == is_ws(c),
{
    ('\u{9}' <= c && c <= '\u{D}') || c == ' ' || c == '\u{85}' || c == '\u{A0}' || c == '\u{1680}'
        || ('\u{2000}' <= c && c <= '\u{200A}') || c == '\u{2028}' || c == '\u{2029}' || c == '\u{202F}'
        || c == '\u{205F}' || c == '\u{3000}'
}

/// The maximal runs of non-separator characters of `s`, in order.
pub open spec fn split_ws(s: Seq<char>) -> Seq<Seq<char>>
    decreases s.len(),
{
    if s.len() == 0 {
        Seq::empty()
    } else {
        let rest = split_ws(s.drop_last());
        let c = s.last();
        if is_ws(c) {
            rest
        } else if s.len() >= 2 && !is_ws(s[s.len() - 2]) && rest.len() > 0 {
            rest.update(rest.len() - 1, rest.last().push(c))
        } else {
            rest.push(seq![c])
        }
    }
}

/// The pieces of `s` between occurrences of `d`, empty pieces included.
pub open spec fn split_on(s: Seq<char>, d: char) -> Seq<Seq<char>>
    decreases s.len(),
{
    if s.len() == 0 {
        seq![Seq::empty()]
    } else {
        let rest = split_on(s.drop_last(), d);
        if s.last() == d {
            rest.push(Seq::empty())
        } else if rest.len() > 0 {
            rest.update(rest.len() - 1, rest.last().push(s.last()))
        } else {
            seq![seq![s.last()]]
        }
    }
}

/// A piece letter: upper case for White, lower case for Black.
pub open spec fn is_piece_char(c: char) -> bool {
    c == 'P' || c == 'N' || c == 'B' || c == 'R' || c == 'Q' || c == 'K' || c == 'p' || c == 'n'
        || c == 'b' || c == 'r' || c == 'q' || c == 'k'
}

/// A count of empty squares within a rank.
pub open spec fn is_gap_digit(c: char) -> bool {
    '1' <= c <= '8'
}

/// The number of squares a rank description covers.
pub open spec fn rank_width(r: Seq<char>) -> int
    decreases r.len(),
{
    if r.len() == 0 {
        0
    } else {
        let c = r.last();
        rank_width(r.drop_last()) + if is_piece_char(c) {
            1int
        } else if is_gap_digit(c) {
            c as int - '0' as int
        } else {
            0int
        }
    }
}

/// A rank description: piece letters and gap digits covering eight squares.
pub open spec fn rank_ok(r: Seq<char>) -> bool {
    &&& forall|k: int| 0 <= k < r.len() ==> is_piece_char(#[trigger] r[k]) || is_gap_digit(r[k])
    &&& rank_width(r) == 8
}

/// How many times `c` occurs in `s`.
pub open spec fn count_char(s: Seq<char>, c: char) -> int
    decreases s.len(),
{
    if s.len() == 0 {
        0
    } else {
        count_char(s.drop_last(), c) + if s.last() == c {
            1int
        } else {
            0int
        }
    }
}

/// The placement field: eight valid ranks separated by `/`, one white king
/// and one black king.
pub open spec fn placement_ok(p: Seq<char>) -> bool {
    let ranks = split_on(p, '/');
    &&& ranks.len() == 8
    &&& forall|k: int| 0 <= k < 8 ==> rank_ok(#[trigger] ranks[k])
    &&& count_char(p, 'K') == 1
    &&& count_char(p, 'k') == 1
}

/// The side-to-move field: `w` or `b`.
pub open spec fn side_ok(f: Seq<char>) -> bool {
    f == seq!['w'] || f == seq!['b']
}

/// A castling-rights letter.
pub open spec fn is_castle_char(c: char) -> bool {
    c == 'K' || c == 'Q' || c == 'k' || c == 'q'
}

/// The castling field: `-`, or one to four letters among `KQkq`.
pub open spec fn castling_ok(f: Seq<char>) -> bool {
    f == seq!['-'] || (1 <= f.len() <= 4 && forall|k: int|
        0 <= k < f.len() ==> is_castle_char(#[trigger] f[k]))
}

/// The en passant field: `-`, or a file letter followed by `3` or `6`.
pub open spec fn en_passant_ok(f: Seq<char>) -> bool {
    f == seq!['-'] || (f.len() == 2 && 'a' <= f[0] <= 'h' && (f[1] == '3' || f[1] == '6'))
}

/// A non-empty run of decimal digits.
pub open spec fn digits_ok(f: Seq<char>) -> bool {
    f.len() >= 1 && forall|k: int| 0 <= k < f.len() ==> '0' <= #[trigger] f[k] <= '9'
}

/// The value of a run of decimal digits.
pub open spec fn number(f: Seq<char>) -> int
    decreases f.len(),
{
    if f.len() == 0 {
        0
    } else {
        number(f.drop_last()) * 10 + (f.last() as int - '0' as int)
    }
}

/// The halfmove field: a non-negative decimal number of at most 65535.
pub open spec fn halfmove_ok(f: Seq<char>) -> bool {
    digits_ok(f) && number(f) <= 65535
}

/// The fullmove field: a positive decimal number that fits the 16-bit counter.
pub open spec fn fullmove_ok(f: Seq<char>) -> bool {
    digits_ok(f) && 1 <= number(f) <= 65535
}

/// A well-formed FEN string: six fields, each following its rule.
pub open spec fn fen_ok(s: Seq<char>) -> bool {
    let fs = split_ws(s);
    &&& fs.len() == 6
    &&& placement_ok(fs[0])
    &&& side_ok(fs[1])
    &&& castling_ok(fs[2])
    &&& en_passant_ok(fs[3])
    &&& halfmove_ok(fs[4])
    &&& fullmove_ok(fs[5])
}

/// A well-formed FEN string whose halfmove clock fits the 8-bit clock of a
/// board, so that it can be read into one.
pub open spec fn fen_readable(s: Seq<char>) -> bool {
    fen_ok(s) && number(split_ws(s)[4]) <= 255
}

/// The characters of `s`.
pub fn chars_of(s: &str) -> (r: Vec<char>)
    ensures
        r@ == s@,
{
    let n = s.unicode_len();
    let mut r: Vec<char> = Vec::new();
    let mut i: usize = 0;
    while i < n
        invariant
            n == s@.len(),
            i <= n,
            r@ == s@.take(i as int),
        decreases n - i,
    {
        r.push(s.get_char(i));
        i = i + 1;
        proof {
            assert(r@ =~= s@.take(i as int));
        }
    }
    proof {
        assert(r@ =~= s@);
    }
    r
}

/// The whitespace-separated fields of `s`.
pub fn split_fields(s: &Vec<char>) -> (r: Vec<Vec<char>>)
    ensures
        r.deep_view() == split_ws(s@),
{
    let mut done: Vec<Vec<char>> = Vec::new();
    let mut cur: Vec<char> = Vec::new();
    let mut in_field = false;
    let mut i: usize = 0;
    proof {
        assert(s@.take(0) =~= Seq::<char>::empty());
        assert(done.deep_view() =~= Seq::<Seq<char>>::empty());
    }
    while i < s.len()
        invariant
            i <= s@.len(),
            in_field == (i > 0 && !is_ws(s@[i - 1])),
            !in_field ==> cur@.len() == 0,
            split_ws(s@.take(i as int)) == if in_field {
                done.deep_view().push(cur@)
            } else {
                done.deep_view()
            },
        decreases s@.len() - i,
    {
        let c = s[i];
        let ghost before = s@.take(i as int);
        proof {
            assert(s@.take(i + 1).drop_last() =~= before);
        }
        if is_separator(c) {
            if in_field {
                let ghost dv = done.deep_view();
                let ghost cv = cur@;
                assert(cur.deep_view() =~= cv);
                done.push(cur);
                cur = Vec::new();
                proof {
                    assert(done.deep_view() =~= dv.push(cv));
                }
            }
            in_field = false;
        } else {
            if in_field {
                let ghost cv = cur@;
                cur.push(c);
                proof {
                    let rest = done.deep_view().push(cv);
                    assert(rest.update(rest.len() - 1, rest.last().push(c)) =~= done.deep_view().push(
                        cur@,
                    ));
                }
            } else {
                cur.push(c);
                proof {
                    assert(cur@ =~= seq![c]);
                }
            }
            in_field = true;
        }
        i = i + 1;
    }
    proof {
        assert(s@.take(i as int) =~= s@);
    }
    if in_field {
        let ghost dv = done.deep_view();
        let ghost cv = cur@;
        assert(cur.deep_view() =~= cv);
        done.push(cur);
        proof {
            assert(done.deep_view() =~= dv.push(cv));
        }
    }
    done
}


/// The pieces of `s` between occurrences of `d`.
pub fn split_at_char(s: &Vec<char>, d: char) -> (r: Vec<Vec<char>>)
    ensures
        r.deep_view() == split_on(s@, d),
{
    let mut done: Vec<Vec<char>> = Vec::new();
    let mut cur: Vec<char> = Vec::new();
    let mut i: usize = 0;
    proof {
        assert(s@.take(0) =~= Seq::<char>::empty());
        assert(done.deep_view().push(cur@) =~= seq![Seq::<char>::empty()]);
    }
    while i < s.len()
        invariant
            i <= s@.len(),
            split_on(s@.take(i as int), d) == done.deep_view().push(cur@),
        decreases s@.len() - i,
    {
        let c = s[i];
        proof {
            assert(s@.take(i + 1).drop_last() =~= s@.take(i as int));
        }
        let ghost dv = done.deep_view();
        let ghost cv = cur@;
        if c == d {
            assert(cur.deep_view() =~= cv);
            done.push(cur);
            cur = Vec::new();
            proof {
                assert(done.deep_view() =~= dv.push(cv));
                assert(done.deep_view().push(cur@) =~= dv.push(cv).push(Seq::empty()));
            }
        } else {
            cur.push(c);
            proof {
                let rest = dv.push(cv);
                assert(rest.update(rest.len() - 1, rest.last().push(c)) =~= dv.push(cur@));
            }
        }
        i = i + 1;
    }
    proof {
        assert(s@.take(i as int) =~= s@);
    }
    let ghost dv = done.deep_view();
    let ghost cv = cur@;
    assert(cur.deep_view() =~= cv);
    done.push(cur);
    proof {
        assert(done.deep_view() =~= dv.push(cv));
    }
    done
}

/// Whether `c` is a piece letter.
pub fn piece_char(c: char) -> (r: bool)
    ensures
        r == is_piece_char(c),
{
    c == 'P' || c == 'N' || c == 'B' || c == 'R' || c == 'Q' || c == 'K' || c == 'p' || c == 'n'
        || c == 'b' || c == 'r' || c == 'q' || c == 'k'
}

/// Whether `r` describes one rank: piece letters and gap digits covering
/// eight squares.
pub fn check_rank(r: &Vec<char>) -> (ok: bool)
    ensures
        ok == rank_ok(r@),
{
    let mut width: u64 = 0;
    let mut all_valid = true;
    let mut i: usize = 0;
    while i < r.len()
        invariant
            i <= r@.len(),
            width as int == if rank_width(r@.take(i as int)) < 9 {
                rank_width(r@.take(i as int))
            } else {
                9
            },
            rank_width(r@.take(i as int)) >= 0,
            all_valid == forall|k: int|
                0 <= k < i ==> is_piece_char(#[trigger] r@[k]) || is_gap_digit(r@[k]),
        decreases r@.len() - i,
    {
        let c = r[i];
        proof {
            assert(r@.take(i + 1).drop_last() =~= r@.take(i as int));
        }
        let add: u64 = if piece_char(c) {
            1
        } else if '1' <= c && c <= '8' {
            (c as u64) - ('0' as u64)
        } else {
            all_valid = false;
            0
        };
        width = if width + add < 9 {
            width + add
        } else {
            9
        };
        i = i + 1;
    }
    proof {
        assert(r@.take(i as int) =~= r@);
    }
    all_valid && width == 8
}

/// Whether `p` is a valid placement field.
pub fn check_placement(p: &Vec<char>) -> (ok: bool)
    ensures
        ok == placement_ok(p@),
{
    let ranks = split_at_char(p, '/');
    if ranks.len() != 8 {
        return false;
    }
    let mut k: usize = 0;
    while k < 8
        invariant
            ranks.deep_view() == split_on(p@, '/'),
            ranks@.len() == 8,
            k <= 8,
            forall|j: int| 0 <= j < k ==> rank_ok(#[trigger] split_on(p@, '/')[j]),
        decreases 8 - k,
    {
        assert(ranks@[k as int]@ =~= ranks.deep_view()[k as int]);
        if !check_rank(&ranks[k]) {
            return false;
        }
        k = k + 1;
    }
    let mut white_kings: u64 = 0;
    let mut black_kings: u64 = 0;
    let mut i: usize = 0;
    while i < p.len()
        invariant
            i <= p@.len(),
            white_kings as int == if count_char(p@.take(i as int), 'K') < 2 {
                count_char(p@.take(i as int), 'K')
            } else {
                2
            },
            black_kings as int == if count_char(p@.take(i as int), 'k') < 2 {
                count_char(p@.take(i as int), 'k')
            } else {
                2
            },
            count_char(p@.take(i as int), 'K') >= 0,
            count_char(p@.take(i as int), 'k') >= 0,
        decreases p@.len() - i,
    {
        proof {
            assert(p@.take(i + 1).drop_last() =~= p@.take(i as int));
        }
        if p[i] == 'K' && white_kings < 2 {
            white_kings = white_kings + 1;
        }
        if p[i] == 'k' && black_kings < 2 {
            black_kings = black_kings + 1;
        }
        i = i + 1;
    }
    proof {
        assert(p@.take(i as int) =~= p@);
    }
    white_kings == 1 && black_kings == 1
}

/// Whether `f` is a valid castling field.
pub fn check_castling(f: &Vec<char>) -> (ok: bool)
    ensures
        ok == castling_ok(f@),
{
    if f.len() == 1 && f[0] == '-' {
        proof {
            assert(f@ =~= seq!['-']);
        }
        return true;
    }
    assert(f@ != seq!['-']) by {
        if f@ == seq!['-'] {
            assert(f@.len() == 1 && f@[0] == '-');
        }
    }
    if f.len() < 1 || f.len() > 4 {
        return false;
    }
    let mut i: usize = 0;
    while i < f.len()
        invariant
            i <= f@.len(),
            f@ != seq!['-'],
            forall|k: int| 0 <= k < i ==> is_castle_char(#[trigger] f@[k]),
        decreases f@.len() - i,
    {
        let c = f[i];
        if !(c == 'K' || c == 'Q' || c == 'k' || c == 'q') {
            return false;
        }
        i = i + 1;
    }
    true
}

/// Whether `f` is a valid en passant field.
pub fn check_en_passant(f: &Vec<char>) -> (ok: bool)
    ensures
        ok == en_passant_ok(f@),
{
    if f.len() == 1 && f[0] == '-' {
        proof {
            assert(f@ =~= seq!['-']);
        }
        true
    } else {
        f.len() == 2 && 'a' <= f[0] && f[0] <= 'h' && (f[1] == '3' || f[1] == '6')
    }
}

/// The value of the decimal number `f` when it is one and at most `max`.
pub fn parse_counter(f: &Vec<char>, max: u32) -> (r: Option<u32>)
    requires
        max < 0x1000_0000,
    ensures
        r.is_some() == (digits_ok(f@) && number(f@) <= max),
        r.is_some() ==> r.unwrap() as int == number(f@),
{
    if f.len() == 0 {
        return None;
    }
    let mut value: u32 = 0;
    let mut all_digits = true;
    let mut i: usize = 0;
    while i < f.len()
        invariant
            max < 0x1000_0000,
            i <= f@.len(),
            all_digits == forall|k: int| 0 <= k < i ==> '0' <= #[trigger] f@[k] <= '9',
            all_digits ==> number(f@.take(i as int)) >= 0,
            all_digits ==> value as int == if number(f@.take(i as int)) <= max {
                number(f@.take(i as int))
            } else {
                max + 1
            },
        decreases f@.len() - i,
    {
        let c = f[i];
        proof {
            assert(f@.take(i + 1).drop_last() =~= f@.take(i as int));
        }
        if '0' <= c && c <= '9' {
            let d = (c as u32) - ('0' as u32);
            let ghost n = number(f@.take(i as int));
            proof {
                if all_digits {
                    assert(if n * 10 + d <= max { n * 10 + d } else { max + 1 } == if (if n <= max {
                        n
                    } else {
                        max + 1
                    }) * 10 + d <= max {
                        (if n <= max {
                            n
                        } else {
                            max + 1
                        }) * 10 + d
                    } else {
                        max + 1
                    }) by (nonlinear_arith)
                        requires
                            n >= 0,
                            0 <= d <= 9,
                            max >= 0,
                    ;
                }
            }
            if all_digits {
                value = if value * 10 + d <= max {
                    value * 10 + d
                } else {
                    max + 1
                };
            }
        } else {
            all_digits = false;
        }
        i = i + 1;
    }
    proof {
        assert(f@.take(i as int) =~= f@);
    }
    if all_digits && value <= max {
        Some(value)
    } else {
        None
    }
}

} // verus!
