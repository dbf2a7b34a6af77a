//! The human-readable match log: one line per Pokémon, a few per side of the board, and
//! the headers of requests and prompts.
//!
//! Actions and prompt kinds appear in the log as compact JSON; that text is made outside
//! the library and handed in.

use vstd::prelude::*;
use vstd::string::StringExecFns;

use crate::cli::{digits, push_digits};
use crate::wire::protocol::{PromptMsg, RequestMsg};
use crate::wire::state::{EntityDto, PlayerView, PokemonInPlayDto, StateDto};

verus! {

/// A number in decimal.
pub open spec fn dec(n: int) -> Seq<char> {
    digits(n as nat)
}

/// A card's slug, or `?` when it is hidden.
pub open spec fn or_unknown(card: Option<String>) -> Seq<char> {
    match card {
        Some(s) => s@,
        None => "?"@,
    }
}

/// `parts` joined with `sep` between neighbours.
pub open spec fn join(parts: Seq<Seq<char>>, sep: Seq<char>) -> Seq<char>
    decreases parts.len(),
{
    if parts.len() == 0 {
        Seq::empty()
    } else if parts.len() == 1 {
        parts[0]
    } else {
        join(parts.drop_last(), sep) + sep + parts.last()
    }
}

/// One Pokémon: `slug#id HPleft/max`, then ` E×n` with energy attached, ` tool:slug` with a
/// tool, and ` [status,...]` with status conditions.
pub open spec fn pokemon_line(p: PokemonInPlayDto) -> Seq<char> {
    let hp: int = if p.damage >= p.hp_max {
        0
    } else {
        p.hp_max - p.damage
    };
    or_unknown(p.card) + "#"@ + dec(p.entity_id as int) + " HP"@ + dec(hp) + "/"@ + dec(
        p.hp_max as int,
    ) + (if p.energy_attached@.len() > 0 {
        " E×"@ + dec(p.energy_attached@.len() as int)
    } else {
        Seq::empty()
    }) + (match p.tool_attached {
        Some(t) => " tool:"@ + or_unknown(t.card),
        None => Seq::empty(),
    }) + (if p.status_conditions@.len() > 0 {
        " ["@ + join(p.status_conditions@.map_values(|s: String| s@), ","@) + "]"@
    } else {
        Seq::empty()
    })
}

/// Three lines for one side of the board: the active Pokémon, the bench, and the sizes of
/// hand, deck, prizes, discard and lost zone.
pub open spec fn player_lines(label: Seq<char>, pv: PlayerView) -> Seq<char> {
    let active = match pv.active {
        Some(p) => pokemon_line(p),
        None => "(none)"@,
    };
    let bench = if pv.bench@.len() == 0 {
        "(empty)"@
    } else {
        join(pv.bench@.map_values(|p: PokemonInPlayDto| pokemon_line(p)), " | "@)
    };
    "  "@ + label + " active: "@ + active + "\n  "@ + label + " bench : "@ + bench + "\n  "@ + label
        + " hand="@ + dec(pv.hand@.len() as int) + " deck="@ + dec(pv.deck_size as int)
        + " prizes="@ + dec(pv.prizes@.len() as int) + " discard="@ + dec(
        pv.discard@.len() as int,
    ) + " lost="@ + dec(pv.lost_zone@.len() as int)
}

/// The board in a few lines: the stadium, if any, then my side and the opponent's.
pub open spec fn state_lines(s: StateDto) -> Seq<char> {
    (match s.stadium {
        Some(st) => "  stadium: "@ + or_unknown(st.card) + "\n"@,
        None => Seq::empty(),
    }) + player_lines("me "@, s.me) + "\n"@ + player_lines("opp"@, s.opp)
}

/// The numbered list of legal actions, from `i` on.
pub open spec fn action_lines(acts: Seq<Seq<char>>, i: int) -> Seq<char>
    decreases acts.len() - i,
{
    if i < 0 || i >= acts.len() {
        Seq::empty()
    } else {
        "\n    ["@ + dec(i) + "] "@ + acts[i] + action_lines(acts, i + 1)
    }
}

/// The header of a request with the board and its actions (as JSON).
pub open spec fn request_lines(req: RequestMsg, acts: Seq<Seq<char>>) -> Seq<char> {
    "\n== request "@ + req.request_id@ + " (turn "@ + dec(req.state.turn as int) + ", phase "@
        + req.state.phase@ + ", active "@ + req.state.active_player@ + ")"@ + (if req.resent {
        " [resent]"@
    } else {
        Seq::empty()
    }) + " ==\n"@ + state_lines(req.state) + "\n  legal actions:"@ + action_lines(acts, 0)
}

/// The header of a prompt with its kind (as JSON).
pub open spec fn prompt_lines(p: PromptMsg, kind: Seq<char>) -> Seq<char> {
    "\n-- prompt "@ + p.request_id@ + " (parent "@ + p.parent_request_id@ + ", choose "@ + dec(
        p.min as int,
    ) + ".."@ + dec(p.max as int) + ")"@ + (if p.resent {
        " [resent]"@
    } else {
        Seq::empty()
    }) + " --\n  kind: "@ + kind
}

/// Appends a literal.
fn put(out: &mut String, lit: &str)
    ensures
        final(out)@ == old(out)@ + lit@,
{
    out.append(lit);
}

/// Appends a card's slug or `?`.
fn put_card(out: &mut String, card: &Option<String>)
    ensures
        final(out)@ == old(out)@ + or_unknown(*card),
{
    match card {
        Some(s) => out.append(s.as_str()),
        None => {
            out.append("?");
            proof {
                reveal_strlit("?");
            }
        },
    }
}

/// Appends `parts` joined with `sep`.
fn put_joined(out: &mut String, parts: &Vec<String>, sep: &str)
    ensures
        final(out)@ == old(out)@ + join(parts@.map_values(|s: String| s@), sep@),
{
    let ghost base = out@;
    let ghost pv = parts@.map_values(|s: String| s@);
    let mut i: usize = 0;
    while i < parts.len()
        invariant
            i <= parts@.len(),
            pv == parts@.map_values(|s: String| s@),
            out@ == base + join(pv.take(i as int), sep@),
        decreases parts.len() - i,
    {
        if i > 0 {
            out.append(sep);
        }
        out.append(parts[i].as_str());
        proof {
            let t = pv.take(i + 1);
            assert(t.drop_last() =~= pv.take(i as int));
            if i == 0 {
                assert(join(pv.take(0), sep@) =~= Seq::<char>::empty());
                assert(out@ =~= base + join(t, sep@));
            } else {
                assert(out@ =~= base + join(t, sep@));
            }
        }
        i = i + 1;
    }
    assert(pv.take(i as int) =~= pv);
}

/// One Pokémon for the log (see `pokemon_line`).
pub fn format_pokemon(p: &PokemonInPlayDto) -> (r: String)
    ensures
        r@ == pokemon_line(*p),
{
    let mut s = String::new();
    put_card(&mut s, &p.card);
    put(&mut s, "#");
    push_digits(&mut s, p.entity_id as u128);
    put(&mut s, " HP");
    let hp: u16 = if p.damage >= p.hp_max {
        0
    } else {
        p.hp_max - p.damage
    };
    push_digits(&mut s, hp as u128);
    put(&mut s, "/");
    push_digits(&mut s, p.hp_max as u128);
    let ghost head = s@;
    if p.energy_attached.len() > 0 {
        put(&mut s, " E×");
        push_digits(&mut s, p.energy_attached.len() as u128);
    }
    let ghost with_energy = s@;
    match &p.tool_attached {
        Some(t) => {
            put(&mut s, " tool:");
            put_card(&mut s, &t.card);
        },
        None => {},
    }
    let ghost with_tool = s@;
    if p.status_conditions.len() > 0 {
        put(&mut s, " [");
        put_joined(&mut s, &p.status_conditions, ",");
        put(&mut s, "]");
    }
    proof {
        reveal_strlit("#");
        reveal_strlit(" HP");
        reveal_strlit("/");
        reveal_strlit(" E×");
        reveal_strlit(" tool:");
        reveal_strlit(" [");
        reveal_strlit(",");
        reveal_strlit("]");
        assert(s@ =~= pokemon_line(*p));
    }
    s
}

/// Appends the Pokémon of `v` for the log, joined with ` | `.
fn put_bench(out: &mut String, v: &Vec<PokemonInPlayDto>)
    ensures
        final(out)@ == old(out)@ + join(v@.map_values(|p: PokemonInPlayDto| pokemon_line(p)), " | "@),
{
    let mut lines: Vec<String> = Vec::new();
    let mut i: usize = 0;
    while i < v.len()
        invariant
            i <= v@.len(),
            lines@.len() == i,
            forall|j: int| 0 <= j < i ==> #[trigger] lines@[j]@ == pokemon_line(v@[j]),
        decreases v.len() - i,
    {
        lines.push(format_pokemon(&v[i]));
        i = i + 1;
    }
    assert(lines@.map_values(|s: String| s@) =~= v@.map_values(
        |p: PokemonInPlayDto| pokemon_line(p),
    ));
    put_joined(out, &lines, " | ");
    proof {
        reveal_strlit(" | ");
    }
}

/// One side of the board for the log (see `player_lines`).
pub fn format_player(label: &str, pv: &PlayerView) -> (r: String)
    ensures
        r@ == player_lines(label@, *pv),
{
    let mut s = String::new();
    put(&mut s, "  ");
    put(&mut s, label);
    put(&mut s, " active: ");
    match &pv.active {
        Some(p) => {
            let a = format_pokemon(p);
            s.append(a.as_str());
        },
        None => put(&mut s, "(none)"),
    }
    put(&mut s, "\n  ");
    put(&mut s, label);
    put(&mut s, " bench : ");
    if pv.bench.len() == 0 {
        put(&mut s, "(empty)");
    } else {
        put_bench(&mut s, &pv.bench);
    }
    put(&mut s, "\n  ");
    put(&mut s, label);
    put(&mut s, " hand=");
    push_digits(&mut s, pv.hand.len() as u128);
    put(&mut s, " deck=");
    push_digits(&mut s, pv.deck_size as u128);
    put(&mut s, " prizes=");
    push_digits(&mut s, pv.prizes.len() as u128);
    put(&mut s, " discard=");
    push_digits(&mut s, pv.discard.len() as u128);
    put(&mut s, " lost=");
    push_digits(&mut s, pv.lost_zone.len() as u128);
    proof {
        reveal_strlit("  ");
        reveal_strlit(" active: ");
        reveal_strlit("(none)");
        reveal_strlit("\n  ");
        reveal_strlit(" bench : ");
        reveal_strlit("(empty)");
        reveal_strlit(" hand=");
        reveal_strlit(" deck=");
        reveal_strlit(" prizes=");
        reveal_strlit(" discard=");
        reveal_strlit(" lost=");
        assert(s@ =~= player_lines(label@, *pv));
    }
    s
}

/// The board for the log (see `state_lines`).
pub fn format_state(st: &StateDto) -> (r: String)
    ensures
        r@ == state_lines(*st),
{
    let mut s = String::new();
    match &st.stadium {
        Some(e) => {
            put(&mut s, "  stadium: ");
            put_card(&mut s, &e.card);
            put(&mut s, "\n");
        },
        None => {},
    }
    let me = format_player("me ", &st.me);
    s.append(me.as_str());
    put(&mut s, "\n");
    let opp = format_player("opp", &st.opp);
    s.append(opp.as_str());
    proof {
        reveal_strlit("  stadium: ");
        reveal_strlit("\n");
        assert(s@ =~= state_lines(*st));
    }
    s
}

/// The header of a request for the log; `actions` holds each legal action as JSON (see
/// `request_lines`).
pub fn format_request(req: &RequestMsg, actions: &[String]) -> (r: String)
    ensures
        r@ == request_lines(*req, actions@.map_values(|a: String| a@)),
{
    let ghost acts = actions@.map_values(|a: String| a@);
    let mut s = String::new();
    put(&mut s, "\n== request ");
    s.append(req.request_id.as_str());
    put(&mut s, " (turn ");
    push_digits(&mut s, req.state.turn as u128);
    put(&mut s, ", phase ");
    s.append(req.state.phase.as_str());
    put(&mut s, ", active ");
    s.append(req.state.active_player.as_str());
    put(&mut s, ")");
    if req.resent {
        put(&mut s, " [resent]");
    }
    put(&mut s, " ==\n");
    let st = format_state(&req.state);
    s.append(st.as_str());
    put(&mut s, "\n  legal actions:");
    let ghost head = s@;
    let mut i: usize = 0;
    while i < actions.len()
        invariant
            i <= actions@.len(),
            acts == actions@.map_values(|a: String| a@),
            s@ + action_lines(acts, i as int) == head + action_lines(acts, 0),
        decreases actions.len() - i,
    {
        let ghost before = s@;
        put(&mut s, "\n    [");
        push_digits(&mut s, i as u128);
        put(&mut s, "] ");
        s.append(actions[i].as_str());
        proof {
            reveal_strlit("\n    [");
            reveal_strlit("] ");
            assert(s@ + action_lines(acts, i + 1) =~= before + action_lines(acts, i as int));
        }
        i = i + 1;
    }
    proof {
        assert(action_lines(acts, i as int) =~= Seq::<char>::empty());
        reveal_strlit("\n== request ");
        reveal_strlit(" (turn ");
        reveal_strlit(", phase ");
        reveal_strlit(", active ");
        reveal_strlit(")");
        reveal_strlit(" [resent]");
        reveal_strlit(" ==\n");
        reveal_strlit("\n  legal actions:");
        assert(s@ =~= request_lines(*req, acts));
    }
    s
}

/// The header of a prompt for the log; `kind` is the prompt's kind as JSON (see
/// `prompt_lines`).
pub fn format_prompt(p: &PromptMsg, kind: &str) -> (r: String)
    ensures
        r@ == prompt_lines(*p, kind@),
{
    let mut s = String::new();
    put(&mut s, "\n-- prompt ");
    s.append(p.request_id.as_str());
    put(&mut s, " (parent ");
    s.append(p.parent_request_id.as_str());
    put(&mut s, ", choose ");
    push_digits(&mut s, p.min as u128);
    put(&mut s, "..");
    push_digits(&mut s, p.max as u128);
    put(&mut s, ")");
    if p.resent {
        put(&mut s, " [resent]");
    }
    put(&mut s, " --\n  kind: ");
    s.append(kind);
    proof {
        reveal_strlit("\n-- prompt ");
        reveal_strlit(" (parent ");
        reveal_strlit(", choose ");
        reveal_strlit("..");
        reveal_strlit(")");
        reveal_strlit(" [resent]");
        reveal_strlit(" --\n  kind: ");
        assert(s@ =~= prompt_lines(*p, kind@));
    }
    s
}

} // verus!
