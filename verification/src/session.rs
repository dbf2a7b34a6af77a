//! One game's conversation with the server, as decisions: what each server message is
//! answered with. Sending, receiving and logging happen outside the library.

use vstd::prelude::*;

use crate::bots::{bot_action_ok, bot_prompt_ok, Bot, PromptChoice};
use crate::cli::{game_end_summary, summary_spec};
use crate::transport::TransportError;
use crate::wire::event::EventDto;
use crate::wire::protocol::{ChoiceMsg, ClientMessage, PongMsg, ResponseMsg, ServerMessage};

use rand_chacha::ChaCha20Rng;

verus! {

/// What to do after a server message.
pub enum Step {
    /// Nothing to send; keep reading.
    Wait,
    /// Send this message, then keep reading.
    Send(ClientMessage),
    /// The game is over; the result line.
    Finish(String),
}

/// Answers one server message: a request with the bot's action, a prompt with its choice, a
/// ping with a pong; the end of the game finishes with its result line; anything else waits.
/// The error is the bot's, when it has no action to give.
pub fn handle_server_msg(msg: ServerMessage, bot: &mut Bot, rng: &mut ChaCha20Rng) -> (r: Result<
    Step,
    TransportError,
>)
    ensures
        match msg {
            ServerMessage::Event(ev) => {
                &&& *final(bot) == *old(bot)
                &&& match ev.event {
                    EventDto::GameEnd { winner, reason } => r matches Ok(Step::Finish(s)) && s@
                        == summary_spec(winner, reason@),
                    _ => r matches Ok(Step::Wait),
                }
            },
            ServerMessage::Request(req) => {
                &&& if req.legal_actions@.len() == 0 {
                    r matches Err(e) && e is Unexpected
                } else {
                    r matches Ok(Step::Send(ClientMessage::Response(m))) && m.request_id@
                        == req.request_id@ && exists|i: int|
                        0 <= i < req.legal_actions@.len() && m.action@
                            == #[trigger] req.legal_actions@[i]@
                }
                &&& match r {
                    Ok(Step::Send(ClientMessage::Response(m))) => bot_action_ok(
                        *old(bot),
                        req,
                        *final(bot),
                        Ok(m.action),
                    ),
                    Err(e) => bot_action_ok(*old(bot), req, *final(bot), Err(e)),
                    _ => false,
                }
            },
            ServerMessage::Prompt(p) => r matches Ok(Step::Send(ClientMessage::Choice(c)))
                && c.request_id@ == p.request_id@ && bot_prompt_ok(
                *old(bot),
                p,
                *final(bot),
                (PromptChoice {
                    selected: c.selected,
                    counts: c.counts,
                    yes: c.yes,
                    branch_index: c.branch_index,
                }),
            ),
            ServerMessage::Ping(_) => {
                &&& *final(bot) == *old(bot)
                &&& r matches Ok(Step::Send(ClientMessage::Pong(pong))) && pong.last_seen_seq == 0
            },
            _ => {
                &&& *final(bot) == *old(bot)
                &&& r matches Ok(Step::Wait)
            },
        },
{
    match msg {
        ServerMessage::Event(ev) => match ev.event {
            EventDto::GameEnd { winner, reason } => Ok(
                Step::Finish(game_end_summary(winner, reason.as_str())),
            ),
            _ => Ok(Step::Wait),
        },
        ServerMessage::Request(req) => {
            let a = bot.answer_request(&req, rng);
            match a {
                Ok(action) => Ok(
                    Step::Send(
                        ClientMessage::Response(ResponseMsg { request_id: req.request_id, action }),
                    ),
                ),
                Err(e) => Err(e),
            }
        },
        ServerMessage::Prompt(p) => {
            let choice = bot.answer_prompt(&p, rng);
            Ok(
                Step::Send(
                    ClientMessage::Choice(
                        ChoiceMsg {
                            request_id: p.request_id,
                            selected: choice.selected,
                            counts: choice.counts,
                            yes: choice.yes,
                            branch_index: choice.branch_index,
                        },
                    ),
                ),
            )
        },
        ServerMessage::Ping(_) => Ok(Step::Send(ClientMessage::Pong(PongMsg { last_seen_seq: 0 }))),
        _ => Ok(Step::Wait),
    }
}

} // verus!
