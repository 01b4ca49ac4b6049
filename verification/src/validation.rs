//! The decisions of a model that checks its own answers: what it asks the
//! language model, and what it does with each reply (take it, ask again
//! with the reason, or give up). Sending and receiving are left to the
//! caller.

use vstd::prelude::*;
use crate::decoding::{check_output, example_node_source, example_source, validate_output, Constraint};
use crate::keyed_map::KeyedMap;
use crate::parser::SlotData;
use crate::registry::Kind;
use crate::text::{append, owned, to_chars, trim, trim_seq};

verus! {

/// The request for a node's output: the prompt, then the grammar the answer
/// is checked against with the rules for answering; for a SPAWN node two
/// example declarations; for a FILTER node how to compare.
pub open spec fn instruction_of(prompt: Seq<char>, ebnf: Seq<char>, kind: Kind) -> Seq<char> {
    prompt + "\n\nНиже — EBNF-правило, по которому будет проверен твой ответ.\nЭто НЕ текст для повторения: не цитируй правило и не пиши 'output ='. Выведи только само значение, удовлетворяющее правилу. Без пояснений, без markdown, без ```. Если правило допускает только пустую строку — не выводи ни одного символа.\n"@
        + ebnf + (if kind == Kind::Spawn {
        "\n\nПримеры валидных узлов (форма и СВОИ ключевые слова для каждого типа — не копируй DO/INTO на другие типы, у каждого типа узла свой набор ключевых слов):\n"@
            + example_source(Kind::Step, "example_1"@) + "\n\n"@ + example_source(Kind::Role, "example_2"@)
    } else {
        Seq::empty()
    }) + (if kind == Kind::Filter {
        "\n\nВ WHERE-условии выше значение переменной (например, category) — это то, что стоит после '=>' у узла-предка, который заканчивается на 'INTO <то же имя>'. Сравни это значение с правой частью условия БУКВАЛЬНО, посимвольно. MATCH — только при точном совпадении, иначе NO_MATCH. Не предполагай совпадение по смыслу или близости темы."@
    } else {
        Seq::empty()
    })
}

/// The request for a node's output.
pub fn instruction(prompt: &str, constraint: &Constraint, kind: Kind) -> (res: String)
    ensures
        res@ == instruction_of(prompt@, constraint.definition@, kind),
{
    let mut s = owned(prompt);
    append(
        &mut s,
        "\n\nНиже — EBNF-правило, по которому будет проверен твой ответ.\nЭто НЕ текст для повторения: не цитируй правило и не пиши 'output ='. Выведи только само значение, удовлетворяющее правилу. Без пояснений, без markdown, без ```. Если правило допускает только пустую строку — не выводи ни одного символа.\n",
    );
    append(&mut s, constraint.definition.as_str());
    let ghost base = s@;
    if kind == Kind::Spawn {
        append(
            &mut s,
            "\n\nПримеры валидных узлов (форма и СВОИ ключевые слова для каждого типа — не копируй DO/INTO на другие типы, у каждого типа узла свой набор ключевых слов):\n",
        );
        let ex1 = example_node_source(Kind::Step, "example_1");
        append(&mut s, ex1.as_str());
        append(&mut s, "\n\n");
        let ex2 = example_node_source(Kind::Role, "example_2");
        append(&mut s, ex2.as_str());
    }
    let ghost mid = s@;
    if kind == Kind::Filter {
        append(
            &mut s,
            "\n\nВ WHERE-условии выше значение переменной (например, category) — это то, что стоит после '=>' у узла-предка, который заканчивается на 'INTO <то же имя>'. Сравни это значение с правой частью условия БУКВАЛЬНО, посимвольно. MATCH — только при точном совпадении, иначе NO_MATCH. Не предполагай совпадение по смыслу или близости темы.",
        );
    }
    proof {
        assert(s@ =~= instruction_of(prompt@, constraint.definition@, kind));
    }
    s
}

/// The request asked again after a refused answer, with the reason.
pub open spec fn retry_instruction_of(instruction: Seq<char>, reason: Seq<char>) -> Seq<char> {
    instruction + "\n\nПредыдущий ответ отвергнут: "@ + reason
}

/// The request asked again after a refused answer.
pub fn retry_instruction(instruction: &str, reason: &str) -> (res: String)
    ensures
        res@ == retry_instruction_of(instruction@, reason@),
{
    let mut s = owned(instruction);
    append(&mut s, "\n\nПредыдущий ответ отвергнут: ");
    append(&mut s, reason);
    s
}

/// What is done with a reply.
#[derive(Debug)]
pub enum ReplyStep {
    /// The reply fits the grammar: its text without surrounding whitespace
    /// is the answer.
    Done(String),
    /// The reply was refused for this reason: ask again.
    AskAgain(String),
    /// The reply was refused for this reason and no attempt is left.
    GiveUp(String),
}

/// Why a reply is refused: too long to be read, or the grammar's verdict;
/// none when it fits.
pub open spec fn refusal(kind: Kind, slots: Map<Seq<char>, crate::parser::SlotDataModel>, reply: Seq<char>) -> Option<
    Seq<char>,
> {
    if reply.len() >= usize::MAX {
        Some("ответ слишком длинный"@)
    } else {
        match check_output(kind, slots, reply) {
            Ok(()) => None,
            Err(r) => Some(r),
        }
    }
}

/// What to do with the reply to attempt `attempt` (from 1) of `max_attempts`.
pub fn after_reply(kind: Kind, slots: &KeyedMap<SlotData>, reply: &str, attempt: u32, max_attempts: u32) -> (res: ReplyStep)
    ensures
        match refusal(kind, slots.deep(), reply@) {
            None => res matches ReplyStep::Done(t) && t@ == trim_seq(reply@),
            Some(r) => if attempt < max_attempts {
                res matches ReplyStep::AskAgain(m) && m@ == r
            } else {
                res matches ReplyStep::GiveUp(m) && m@ == r
            },
        },
{
    let n = to_chars(reply).len();
    let reason = if n == usize::MAX {
        owned("ответ слишком длинный")
    } else {
        match validate_output(kind, slots, reply) {
            Ok(()) => {
                return ReplyStep::Done(trim(reply));
            },
            Err(r) => r,
        }
    };
    if attempt < max_attempts {
        ReplyStep::AskAgain(reason)
    } else {
        ReplyStep::GiveUp(reason)
    }
}

} // verus!
