//! What arguments and variables mean.

use vstd::prelude::*;

#[allow(unused_imports)]
use super::{
    argument, arguments_flaw, asked, asks_for, auth_flaw, config_defect, digits, environment_flaw,
    first_colon, number, reports, text, Arguments, Environment, Flaw, RpcAuth,
};
#[allow(unused_imports)]
use crate::load::LoadError;
#[allow(unused_imports)]
use crate::text::{all_digits, amount, decimal, law_decimal, lemma_amount};

verus! {

/// The digits of a text: all of it, or what follows a plus sign.
pub open spec fn unsigned(chars: Seq<char>) -> Seq<char> {
    if chars.len() > 1 && chars[0] == '+' {
        chars.drop_first()
    } else {
        chars
    }
}

/// A text is read as a number exactly where it is that number in decimal digits, perhaps
/// with a plus sign or zeros in front.
pub proof fn law_number(chars: Seq<char>, value: u64)
    ensures
        number(chars) == Ok::<u64, &'static str>(value) <==> {
            &&& unsigned(chars).len() > 0
            &&& all_digits(unsigned(chars))
            &&& amount(unsigned(chars)) == value
        },
        number(chars) is Ok <==> {
            &&& unsigned(chars).len() > 0
            &&& all_digits(unsigned(chars))
            &&& amount(unsigned(chars)) <= u64::MAX
        },
{
    let from = if chars.len() > 1 && chars[0] == '+' {
        1int
    } else {
        0
    };
    if chars.len() > 0 {
        lemma_digits(chars, from, chars.len() as int);
        assert(chars.subrange(from, chars.len() as int) =~= unsigned(chars));
    }
}

/// What digits show, from the front.
proof fn lemma_digits(chars: Seq<char>, from: int, to: int)
    requires
        0 <= from <= to <= chars.len(),
    ensures
        ({
            let part = chars.subrange(from, to);
            match digits(chars, from, to) {
                Ok(read) => all_digits(part) && amount(part) == read,
                Err(_) => !(all_digits(part) && amount(part) <= u64::MAX),
            }
        }),
        all_digits(chars.subrange(from, to)) ==> amount(chars.subrange(from, to)) >= 0,
    decreases to - from,
{
    let part = chars.subrange(from, to);
    if from < to {
        lemma_digits(chars, from, to - 1);
        let before = chars.subrange(from, to - 1);
        assert(before.push(chars[to - 1]) =~= part);
        lemma_amount(before, chars[to - 1]);
        assert(part[to - 1 - from] == chars[to - 1]);
        if all_digits(part) {
            assert forall|i: int| 0 <= i < before.len() implies '0' <= #[trigger] before[i]
                <= '9' by {
                assert(before[i] == part[i]);
            }
        }
        if all_digits(before) && '0' <= chars[to - 1] <= '9' {
            assert forall|i: int| 0 <= i < part.len() implies '0' <= #[trigger] part[i] <= '9' by {
                if i < before.len() {
                    assert(part[i] == before[i]);
                }
            }
        }
    }
}

/// A number that was written is read again.
pub proof fn law_decimal_is_read(value: u64)
    ensures
        number(decimal(value as nat)) == Ok::<u64, &'static str>(value),
{
    law_decimal(value as nat);
    let chars = decimal(value as nat);
    assert('0' <= chars[0] <= '9');
    law_number(chars, value);
}

/// How to log in: without a name; with the name in front of the first colon and the
/// password behind it, both of which have to be there; with a cookie file otherwise.
pub proof fn law_login(argument: Seq<char>, result: Result<RpcAuth, LoadError>, colon: int)
    requires
        asks_for(argument, result),
    ensures
        argument == "none"@ ==> result matches Ok(RpcAuth::Anonymous),
        argument != "none"@ && !argument.contains(':') ==> (result matches Ok(
            RpcAuth::Cookie(path),
        ) && path@ == argument),
        argument != "none"@ && 0 < colon < argument.len() - 1 && argument[colon] == ':'
            && !argument.take(colon).contains(':') ==> (result matches Ok(
            RpcAuth::UserPass(user, password),
        ) && user@ == argument.take(colon) && password@ == argument.skip(colon + 1)),
        argument.len() > 0 && argument[0] == ':' ==> result is Err,
        argument != "none"@ && argument.len() > 0 && argument.last() == ':'
            && !argument.drop_last().contains(':') ==> result is Err,
{
    reveal_strlit("none");
    if argument.len() > 0 && argument[0] == ':' {
        assert(argument != "none"@) by {
            assert("none"@[0] == 'n');
        }
        lemma_first_colon(argument, 0);
    }
    if argument.len() > 0 && argument.last() == ':' && !argument.drop_last().contains(':') {
        assert forall|i: int| 0 <= i < argument.len() - 1 implies #[trigger] argument[i]
            != ':' by {
            assert(argument.drop_last()[i] == argument[i]);
        }
        lemma_first_colon(argument, argument.len() - 1);
    }
    if 0 < colon < argument.len() - 1 && argument[colon] == ':' && !argument.take(
        colon,
    ).contains(':') {
        assert forall|i: int| 0 <= i < colon implies #[trigger] argument[i] != ':' by {
            assert(argument.take(colon)[i] == argument[i]);
        }
        lemma_first_colon(argument, colon);
    }
}

/// There is one first colon.
proof fn lemma_first_colon(chars: Seq<char>, index: int)
    requires
        first_colon(chars, index),
    ensures
        (choose|i: int| first_colon(chars, i)) == index,
        forall|i: int| #[trigger] first_colon(chars, i) ==> i == index,
{
    assert forall|i: int| #[trigger] first_colon(chars, i) implies i == index by {
        if i < index {
            assert(chars[i] != ':');
        } else if i > index {
            assert(chars[index] != ':');
        }
    }
}

/// Whether an optional text is a number, which it stands for; without it a default does.
pub open spec fn stands_for(value: Option<Seq<char>>, default: int, read: int) -> bool {
    match value {
        None => read == default,
        Some(chars) => {
            &&& unsigned(chars).len() > 0
            &&& all_digits(unsigned(chars))
            &&& amount(unsigned(chars)) == read
        },
    }
}

/// What the arguments ask for, with a default for each that is left out: an address, a last
/// height, the workers that fetch, no more than four of them by default, the workers that
/// spend, all but one by default, the slots of the ring, and a directory. The sizes are
/// those of the environment, in units of a mebibyte or a gibibyte.
pub proof fn law_arguments(
    arguments: Seq<String>,
    environment: Environment,
    parallelism: usize,
    parsed: Arguments,
)
    requires
        arguments_flaw(arguments, parallelism) is None,
        environment_flaw(environment) is None,
        asked(arguments, environment, parallelism, parsed),
    ensures
        arguments.len() >= 2,
        arguments.len() > 2 ==> parsed.rpc_url@ == arguments[2]@,
        arguments.len() <= 2 ==> parsed.rpc_url@ == "http://127.0.0.1:8332"@,
        arguments.len() <= 3 || arguments[3]@ == "tip"@ <==> parsed.tip_height is None,
        parsed.tip_height matches Some(tip) ==> stands_for(Some(arguments[3]@), 0, tip as int),
        stands_for(
            argument(arguments, 4),
            if parallelism > 4 {
                4
            } else {
                parallelism as int
            },
            parsed.fetch_threads as int,
        ),
        stands_for(
            argument(arguments, 5),
            if parallelism > 1 {
                parallelism - 1
            } else {
                1
            },
            parsed.spend_threads as int,
        ),
        parsed.fetch_threads > 0 && parsed.spend_threads > 0,
        stands_for(argument(arguments, 6), 64, parsed.ring_slots as int),
        arguments.len() > 7 ==> parsed.work_dir@ == arguments[7]@,
        arguments.len() <= 7 ==> parsed.work_dir@ == "bitcoin-load-run"@,
        parsed.slot_bytes as int % 0x10_0000 == 0 && stands_for(
            text(environment.slot_mib),
            5,
            parsed.slot_bytes as int / 0x10_0000,
        ),
        parsed.database_block_bytes as int % 0x10_0000 == 0 && stands_for(
            text(environment.block_mib),
            1,
            parsed.database_block_bytes as int / 0x10_0000,
        ),
        parsed.body_capacity as int % 0x4000_0000 == 0 && stands_for(
            text(environment.body_gib),
            64,
            parsed.body_capacity as int / 0x4000_0000,
        ),
        parsed.blob_capacity as int % 0x4000_0000 == 0 && stands_for(
            text(environment.blob_gib),
            64,
            parsed.blob_capacity as int / 0x4000_0000,
        ),
        stands_for(text(environment.buckets), 1_048_576, parsed.buckets as int),
        stands_for(text(environment.rpc_delay_ms), 15, parsed.rpc_delay_ms as int),
        parsed.checkpoint == environment.checkpoint,
{
    lemma_read(argument(arguments, 3));
    lemma_read(argument(arguments, 4));
    lemma_read(argument(arguments, 5));
    lemma_read(argument(arguments, 6));
    lemma_read(text(environment.slot_mib));
    lemma_read(text(environment.block_mib));
    lemma_read(text(environment.body_gib));
    lemma_read(text(environment.blob_gib));
    lemma_read(text(environment.buckets));
    lemma_read(text(environment.rpc_delay_ms));
}

/// What a text that is read as a number stands for.
proof fn lemma_read(value: Option<Seq<char>>)
    ensures
        value matches Some(chars) ==> match number(chars) {
            Ok(read) => stands_for(value, 0, read as int),
            Err(_) => forall|read: int|
                0 <= read <= u64::MAX ==> !#[trigger] stands_for(value, 0, read),
        },
{
    if let Some(chars) = value {
        match number(chars) {
            Ok(read) => {
                law_number(chars, read);
            },
            Err(_) => {
                law_number(chars, 0);
            },
        }
    }
}

/// Whether a text is a number of at most 64 bits, or left out.
pub open spec fn numeric(value: Option<Seq<char>>) -> bool {
    value matches Some(chars) ==> {
        &&& unsigned(chars).len() > 0
        &&& all_digits(unsigned(chars))
        &&& amount(unsigned(chars)) <= u64::MAX
    }
}

/// Whether a text is a number of which so many units fit 64 bits, or left out.
pub open spec fn sized(value: Option<Seq<char>>, unit: int) -> bool {
    value matches Some(chars) ==> {
        &&& unsigned(chars).len() > 0
        &&& all_digits(unsigned(chars))
        &&& amount(unsigned(chars)) * unit <= u64::MAX
    }
}

/// Nothing is wrong with the environment exactly where every variable that is set is a
/// number, and the sizes fit 64 bits.
pub proof fn law_sound_environment(environment: Environment)
    ensures
        environment_flaw(environment) is None <==> {
            &&& sized(text(environment.slot_mib), 0x10_0000)
            &&& sized(text(environment.block_mib), 0x10_0000)
            &&& sized(text(environment.body_gib), 0x4000_0000)
            &&& sized(text(environment.blob_gib), 0x4000_0000)
            &&& numeric(text(environment.buckets))
            &&& numeric(text(environment.rpc_delay_ms))
        },
{
    lemma_numeric(text(environment.slot_mib), 0x10_0000);
    lemma_numeric(text(environment.block_mib), 0x10_0000);
    lemma_numeric(text(environment.body_gib), 0x4000_0000);
    lemma_numeric(text(environment.blob_gib), 0x4000_0000);
    lemma_numeric(text(environment.buckets), 1);
    lemma_numeric(text(environment.rpc_delay_ms), 1);
}

/// Whether an argument says how to log in: if it has a colon, the first one has a name in
/// front and a password behind it.
pub open spec fn names_login(argument: Seq<char>) -> bool {
    argument.len() > 0 ==> argument[0] != ':' && (argument.last() == ':'
        ==> argument.drop_last().contains(':'))
}

proof fn lemma_login(arguments: Seq<String>)
    requires
        arguments.len() >= 2,
    ensures
        names_login(arguments[1]@) <==> auth_flaw(arguments) is None,
{
    let argument = arguments[1]@;
    lemma_not_none(argument);
    if argument.len() > 0 && argument[0] == ':' {
        lemma_login_refused(arguments, 0);
    } else if argument.len() > 0 && argument.last() == ':' && !argument.drop_last().contains(':') {
        assert forall|i: int| 0 <= i < argument.len() - 1 implies #[trigger] argument[i]
            != ':' by {
            assert(argument.drop_last()[i] == argument[i]);
        }
        lemma_login_refused(arguments, argument.len() - 1);
    } else {
        lemma_login_taken(arguments);
    }
}

/// The word for no login has no colon at either end.
proof fn lemma_not_none(argument: Seq<char>)
    ensures
        argument == "none"@ ==> argument.len() == 4 && argument[0] != ':' && argument.last() != ':',
{
    reveal_strlit("none");
}

#[verifier::spinoff_prover]
proof fn lemma_login_refused(arguments: Seq<String>, colon: int)
    requires
        arguments.len() >= 2,
        arguments[1]@ != "none"@,
        first_colon(arguments[1]@, colon),
        colon == 0 || colon == arguments[1]@.len() - 1,
    ensures
        auth_flaw(arguments) is Some,
{
    let auth = arguments[1]@;
    lemma_first_colon(auth, colon);
    match argument(arguments, 1) {
        None => {},
        Some(chars) => {
            assert(chars == auth);
            let index = choose|index: int| first_colon(chars, index);
            assert(first_colon(chars, colon));
            assert(first_colon(chars, index));
        },
    }
}

#[verifier::spinoff_prover]
proof fn lemma_login_taken(arguments: Seq<String>)
    requires
        arguments.len() >= 2,
        names_login(arguments[1]@),
    ensures
        auth_flaw(arguments) is None,
{
    let argument = arguments[1]@;
    if exists|index: int| first_colon(argument, index) {
        let index = choose|index: int| first_colon(argument, index);
        assert(first_colon(argument, index));
        lemma_first_colon(argument, index);
        if index == argument.len() - 1 {
            assert(argument.last() == ':');
            let i = argument.drop_last().index_of(':');
            assert(argument[i] == ':');
        }
        assert(0 < index < argument.len() - 1);
    }
}

/// Nothing is wrong with the arguments exactly where there is a first one that says how to
/// log in, the numbers among them are numbers, and no pool of workers is empty.
pub proof fn law_sound_arguments(arguments: Seq<String>, parallelism: usize)
    requires
        parallelism > 0,
    ensures
        arguments_flaw(arguments, parallelism) is None <==> {
            &&& arguments.len() >= 2
            &&& names_login(arguments[1]@)
            &&& arguments.len() > 3 && arguments[3]@ != "tip"@ ==> numeric(Some(arguments[3]@))
            &&& arguments.len() > 4 ==> numeric(Some(arguments[4]@)) && 0 < amount(
                unsigned(arguments[4]@),
            ) <= usize::MAX
            &&& arguments.len() > 5 ==> numeric(Some(arguments[5]@)) && 0 < amount(
                unsigned(arguments[5]@),
            ) <= usize::MAX
            &&& arguments.len() > 6 ==> numeric(Some(arguments[6]@))
        },
{
    if arguments.len() >= 2 {
        lemma_login(arguments);
    }
    lemma_numeric(argument(arguments, 3), 1);
    lemma_numeric(argument(arguments, 4), 1);
    lemma_numeric(argument(arguments, 5), 1);
    lemma_numeric(argument(arguments, 6), 1);
}

/// What a text that is a number is read as.
proof fn lemma_numeric(value: Option<Seq<char>>, unit: int)
    requires
        unit > 0,
    ensures
        numeric(value) <==> (value matches Some(chars) ==> number(chars) is Ok),
        value matches Some(chars) ==> number(chars) is Ok ==> number(chars)->Ok_0 == amount(
            unsigned(chars),
        ),
        sized(value, unit) <==> numeric(value) && (value matches Some(chars) ==> number(
            chars,
        )->Ok_0 * unit <= u64::MAX),
{
    if let Some(chars) = value {
        law_number(chars, 0);
        if number(chars) is Ok {
            law_number(chars, number(chars)->Ok_0);
        }
        let shown = amount(unsigned(chars));
        if all_digits(unsigned(chars)) && shown * unit <= u64::MAX {
            assert(shown <= u64::MAX) by (nonlinear_arith)
                requires
                    unit > 0,
                    shown * unit <= u64::MAX,
            ;
        }
    }
}

/// There is an index for a chain exactly where the workers and one more fit sixteen bits,
/// and the body has 96 bytes for every block.
pub proof fn law_index_config(arguments: Arguments, tip_height: u64)
    ensures
        config_defect(arguments, tip_height) is None <==> {
            &&& arguments.fetch_threads + arguments.spend_threads <= 65_534
            &&& 96 * (tip_height + 1) <= arguments.body_capacity
        },
{
}

/// How a flaw is reported: with its description, or with what should be a number, under the
/// name that it has and with the reason that it is none.
pub proof fn law_flaws_are_reported(error: LoadError, flaw: Flaw)
    ensures
        reports(error, flaw) <==> match flaw {
            Flaw::Described(description) => error == LoadError::InvalidInput(description),
            Flaw::Number(name, value, reason) => error matches LoadError::InvalidNumber {
                name: told,
                value: shown,
                reason: given,
            } && told == name && shown@ == value && given == reason,
        },
{
}

/// Why a text is no number: it is empty, its first character is no digit, or it is a number
/// that is too large.
pub proof fn law_number_is_refused(chars: Seq<char>)
    ensures
        chars.len() == 0 ==> number(chars) == Err::<u64, &'static str>(
            "cannot parse integer from empty string",
        ),
        chars.len() > 0 && !('0' <= unsigned(chars)[0] <= '9') ==> number(chars) == Err::<
            u64,
            &'static str,
        >("invalid digit found in string"),
        chars.len() > 0 && all_digits(unsigned(chars)) && amount(unsigned(chars)) > u64::MAX
            ==> number(chars) == Err::<u64, &'static str>("number too large to fit in target type"),
{
    let from = if chars.len() > 1 && chars[0] == '+' {
        1int
    } else {
        0
    };
    if chars.len() > 0 {
        law_number(chars, 0);
        assert(chars.subrange(from, chars.len() as int) =~= unsigned(chars));
        lemma_refused(chars, from, chars.len() as int);
    }
}

/// Why digits are refused.
proof fn lemma_refused(chars: Seq<char>, from: int, to: int)
    requires
        0 <= from <= to <= chars.len(),
    ensures
        digits(chars, from, to) is Err && all_digits(chars.subrange(from, to)) ==> digits(
            chars,
            from,
            to,
        ) == Err::<u64, &'static str>("number too large to fit in target type"),
        from < to && !('0' <= chars[from] <= '9') ==> digits(chars, from, to) == Err::<
            u64,
            &'static str,
        >("invalid digit found in string"),
    decreases to - from,
{
    if from < to {
        lemma_refused(chars, from, to - 1);
        let part = chars.subrange(from, to);
        let before = chars.subrange(from, to - 1);
        assert(part[to - 1 - from] == chars[to - 1]);
        if all_digits(part) {
            assert forall|i: int| 0 <= i < before.len() implies '0' <= #[trigger] before[i]
                <= '9' by {
                assert(before[i] == part[i]);
            }
        }
    }
}

} // verus!
