//! What an export promises: a path names a descriptor exactly when it says so,
//! and the header gives every field of the run on a line of its own.

use vstd::prelude::*;

use crate::number::{
    all_digits, decimal, law_decimal_is_worth_its_number, lemma_decimal_round_trip, lemma_powers_of_ten, place_value,
};
use crate::speed::laws::{law_a_unit_text_reads_back, writes_exactly};
use crate::speed::unit_text;
use crate::text::{join_with, starts, string_views};

use super::{bus_numbers, feature_names, named_descriptor, record_text, RunRecord};

verus! {

/// Standard output and standard error have their descriptors, a path below
/// `/dev/fd/` has the one it writes, and any other path has none.
pub proof fn law_a_path_names_the_descriptor_it_writes(n: nat, path: Seq<char>)
    requires
        n <= i32::MAX,
    ensures
        named_descriptor("/dev/stdout"@) == Some(1nat),
        named_descriptor("/dev/stderr"@) == Some(2nat),
        named_descriptor("/dev/fd/"@ + decimal(n)) == Some(n),
        path != "/dev/stdout"@ && path != "/dev/stderr"@ && !starts(path, "/dev/fd/"@) ==> named_descriptor(
            path,
        ) is None,
{
    reveal_strlit("/dev/stdout");
    reveal_strlit("/dev/stderr");
    reveal_strlit("/dev/fd/");
    let s = "/dev/fd/"@ + decimal(n);
    lemma_decimal_round_trip(n);
    assert("/dev/stdout"@[5] == 's' && "/dev/stderr"@[5] == 's' && "/dev/fd/"@[5] == 'f');
    assert(s[5] == 'f');
    assert("/dev/stdout"@[8] == 'o' && "/dev/stderr"@[8] == 'e');
    assert(s.take(8) =~= "/dev/fd/"@);
    assert(s.skip(8) =~= decimal(n));
    assert('0' <= decimal(n)[0] <= '9');
}

/// A feature is named exactly when it is on.
pub proof fn law_a_feature_is_named_when_it_is_on(capture_fixture: bool, ebpf: bool, integration: bool)
    ensures
        ({
            let names = feature_names(capture_fixture, ebpf, integration);
            &&& names.contains("capture-fixture"@) <==> capture_fixture
            &&& names.contains("ebpf"@) <==> ebpf
            &&& names.contains("integration"@) <==> integration
            &&& names.len() == (if capture_fixture {
                1int
            } else {
                0
            }) + (if ebpf {
                1int
            } else {
                0
            }) + (if integration {
                1int
            } else {
                0
            })
        }),
{
    reveal_strlit("capture-fixture");
    reveal_strlit("ebpf");
    reveal_strlit("integration");
    assert("capture-fixture"@.len() == 15 && "ebpf"@.len() == 4 && "integration"@.len() == 11);
    let names = feature_names(capture_fixture, ebpf, integration);
    let c: int = if capture_fixture {
        1
    } else {
        0
    };
    let e: int = if ebpf {
        1
    } else {
        0
    };
    if capture_fixture {
        assert(names[0] == "capture-fixture"@);
    }
    if ebpf {
        assert(names[c] == "ebpf"@);
    }
    if integration {
        assert(names[c + e] == "integration"@);
    }
}

/// One line of a header.
pub open spec fn header_line(key: Seq<char>, value: Seq<char>) -> Seq<char> {
    "# "@ + key + ": "@ + value + "\n"@
}

/// The header gives every field of the run on a line of its own, in their
/// order: the start reads back in seconds, the window exactly in seconds, and
/// lists are joined by spaces.
pub proof fn law_a_header_gives_every_field(run: RunRecord) -> (parts: (Seq<char>, Seq<char>))
    ensures
        record_text(run) == header_line("usbtop_ng"@, run.usbtop_ng@) + header_line(
            "features"@,
            join_with(string_views(run.features@), " "@),
        ) + header_line("started_unix"@, parts.0) + header_line("window_seconds"@, parts.1) + header_line(
            "batch"@,
            if run.batch {
                "true"@
            } else {
                "false"@
            },
        ) + header_line("filters"@, join_with(string_views(run.filters@), " "@)) + header_line(
            "command"@,
            join_with(string_views(run.command@), " "@),
        ) + header_line("backend"@, run.backend@) + header_line("kernel"@, run.kernel@) + header_line("os"@, run.os@)
            + header_line("arch"@, run.arch@) + header_line(
            "buses"@,
            join_with(run.buses@.map_values(|b: u8| decimal(b as nat)), " "@),
        ),
        all_digits(parts.0) && place_value(parts.0) == run.started_unix,
        writes_exactly(parts.1, run.window_ms as nat, 3),
{
    reveal_strlit(" ");
    assert(" "@ =~= seq![' ']);
    law_decimal_is_worth_its_number(run.started_unix as nat);
    lemma_powers_of_ten();
    law_a_unit_text_reads_back(run.window_ms as nat, 3);
    assert(run.buses@.map_values(|b: u8| decimal(b as nat)) =~= bus_numbers(run.buses@));
    (decimal(run.started_unix as nat), unit_text(run.window_ms as nat, 1000))
}

} // verus!
