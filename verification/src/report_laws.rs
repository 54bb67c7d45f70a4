//! What the reports of a backtest hold, told by what can be read from them.
use vstd::prelude::*;

use crate::default_tasks::DefaultGraphStudyRecord;
use crate::list_laws::{joined_by, law_splitting_undoes_joining};
use crate::report::{
    bool_text, graph_stats_header, graph_stats_row, optional_amount_text, optional_count_text,
    GraphStatsContext,
};
use crate::text::{decimal, split};
use crate::text_laws::lemma_decimal;

verus! {

/// The names in the first line of a file of graph statistics.
pub open spec fn column_names() -> Seq<Seq<char>> {
    seq![
        "block_number"@,
        "builder_name"@,
        "group_id"@,
        "algorithm"@,
        "original_order_count"@,
        "selected_order_count"@,
        "edge_count"@,
        "density"@,
        "max_degree"@,
        "has_missing_traces"@,
        "orientation_eligible"@,
        "random_task_added"@,
        "candidate_sequence_count"@,
        "best_profit"@,
    ]
}

/// What belongs under a name.
pub open spec fn field_under(
    name: Seq<char>,
    context: GraphStatsContext<'_>,
    record: DefaultGraphStudyRecord,
) -> Seq<char> {
    if name == "block_number"@ {
        decimal(context.block_number as nat)
    } else if name == "builder_name"@ {
        context.builder_name@
    } else if name == "group_id"@ {
        decimal(record.group_id as nat)
    } else if name == "algorithm"@ {
        record.algorithm@
    } else if name == "original_order_count"@ {
        decimal(record.original_order_count as nat)
    } else if name == "selected_order_count"@ {
        decimal(record.selected_order_count as nat)
    } else if name == "edge_count"@ {
        decimal(record.edge_count as nat)
    } else if name == "density"@ {
        context.density@
    } else if name == "max_degree"@ {
        decimal(record.max_degree as nat)
    } else if name == "has_missing_traces"@ {
        if record.has_missing_traces {
            "true"@
        } else {
            "false"@
        }
    } else if name == "orientation_eligible"@ {
        if context.orientation_eligible {
            "true"@
        } else {
            "false"@
        }
    } else if name == "random_task_added"@ {
        if context.random_task_added {
            "true"@
        } else {
            "false"@
        }
    } else if name == "candidate_sequence_count"@ {
        match record.candidate_sequence_count {
            Some(count) => decimal(count as nat),
            None => Seq::empty(),
        }
    } else {
        match record.best_profit {
            Some(profit) => decimal(profit.value()),
            None => Seq::empty(),
        }
    }
}

proof fn lemma_names_differ(i: int, j: int)
    requires
        0 <= i < j < 14,
    ensures
        column_names()[i] != column_names()[j],
{
    reveal_strlit("block_number");
    reveal_strlit("builder_name");
    reveal_strlit("group_id");
    reveal_strlit("algorithm");
    reveal_strlit("original_order_count");
    reveal_strlit("selected_order_count");
    reveal_strlit("edge_count");
    reveal_strlit("density");
    reveal_strlit("max_degree");
    reveal_strlit("has_missing_traces");
    reveal_strlit("orientation_eligible");
    reveal_strlit("random_task_added");
    reveal_strlit("candidate_sequence_count");
    reveal_strlit("best_profit");
    let a = column_names()[i];
    let b = column_names()[j];
    assert(a.len() != b.len() || a[0] != b[0] || a[1] != b[1] || a[3] != b[3]);
}

proof fn lemma_names_hold_no_comma(i: int)
    requires
        0 <= i < 14,
    ensures
        !column_names()[i].contains(','),
{
    reveal_strlit("block_number");
    reveal_strlit("builder_name");
    reveal_strlit("group_id");
    reveal_strlit("algorithm");
    reveal_strlit("original_order_count");
    reveal_strlit("selected_order_count");
    reveal_strlit("edge_count");
    reveal_strlit("density");
    reveal_strlit("max_degree");
    reveal_strlit("has_missing_traces");
    reveal_strlit("orientation_eligible");
    reveal_strlit("random_task_added");
    reveal_strlit("candidate_sequence_count");
    reveal_strlit("best_profit");
}

#[verifier::rlimit(60)]
proof fn lemma_header()
    ensures
        graph_stats_header() == joined_by(column_names(), ','),
{
    reveal_strlit("block_number");
    reveal_strlit("builder_name");
    reveal_strlit("group_id");
    reveal_strlit("algorithm");
    reveal_strlit("original_order_count");
    reveal_strlit("selected_order_count");
    reveal_strlit("edge_count");
    reveal_strlit("density");
    reveal_strlit("max_degree");
    reveal_strlit("has_missing_traces");
    reveal_strlit("orientation_eligible");
    reveal_strlit("random_task_added");
    reveal_strlit("candidate_sequence_count");
    reveal_strlit("best_profit");
    reveal_strlit(
        "block_number,builder_name,group_id,algorithm,original_order_count,selected_order_count,edge_count,density,max_degree,has_missing_traces,orientation_eligible,random_task_added,candidate_sequence_count,best_profit",
    );
    lemma_joined(column_names());
    let c = seq![','];
    assert(graph_stats_header() =~= "block_number"@ + c + "builder_name"@ + c + "group_id"@ + c
        + "algorithm"@ + c + "original_order_count"@ + c + "selected_order_count"@ + c
        + "edge_count"@ + c + "density"@ + c + "max_degree"@ + c + "has_missing_traces"@ + c
        + "orientation_eligible"@ + c + "random_task_added"@ + c + "candidate_sequence_count"@ + c
        + "best_profit"@);
}

/// Fourteen texts, with commas between them.
proof fn lemma_joined(s: Seq<Seq<char>>)
    requires
        s.len() == 14,
    ensures
        joined_by(s, ',') == s[0] + seq![','] + s[1] + seq![','] + s[2] + seq![','] + s[3] + seq![
            ',',
        ] + s[4] + seq![','] + s[5] + seq![','] + s[6] + seq![','] + s[7] + seq![','] + s[8] + seq![
            ',',
        ] + s[9] + seq![','] + s[10] + seq![','] + s[11] + seq![','] + s[12] + seq![','] + s[13],
{
    lemma_joined_step(s, 1);
    lemma_joined_step(s, 2);
    lemma_joined_step(s, 3);
    lemma_joined_step(s, 4);
    lemma_joined_step(s, 5);
    lemma_joined_step(s, 6);
    lemma_joined_step(s, 7);
    lemma_joined_step(s, 8);
    lemma_joined_step(s, 9);
    lemma_joined_step(s, 10);
    lemma_joined_step(s, 11);
    lemma_joined_step(s, 12);
    lemma_joined_step(s, 13);
    assert(joined_by(s.take(1), ',') == s[0]);
    assert(s.take(14) =~= s);
}

proof fn lemma_joined_step(s: Seq<Seq<char>>, k: int)
    requires
        1 <= k < s.len(),
    ensures
        joined_by(s.take(k + 1), ',') == joined_by(s.take(k), ',') + seq![','] + s[k],
{
    assert(s.take(k + 1).drop_last() =~= s.take(k));
}

proof fn lemma_decimal_holds_no_comma(n: nat)
    ensures
        !decimal(n).contains(','),
{
    lemma_decimal(n);
    let s = decimal(n);
    if s.contains(',') {
        let i = choose|i: int| 0 <= i < s.len() && s[i] == ',';
        assert('0' <= s[i]);
    }
}

/// A row has a field for every name in the first line, and the field at the place of a name is what
/// belongs under it.
pub proof fn law_fields_stand_under_their_names(
    context: GraphStatsContext<'_>,
    record: DefaultGraphStudyRecord,
)
    requires
        !context.builder_name@.contains(','),
        !context.density@.contains(','),
        !record.algorithm@.contains(','),
    ensures
        split(graph_stats_header(), ',') == column_names(),
        ({
            let names = split(graph_stats_header(), ',');
            let fields = split(graph_stats_row(context, record), ',');
            &&& fields.len() == names.len()
            &&& forall|i: int|
                0 <= i < fields.len() ==> #[trigger] fields[i] == field_under(
                    names[i],
                    context,
                    record,
                )
        }),
{
    lemma_header();
    let names = column_names();
    assert forall|i: int| 0 <= i < names.len() implies !(#[trigger] names[i]).contains(',') by {
        lemma_names_hold_no_comma(i);
    }
    law_splitting_undoes_joining(names, ',');
    lemma_row_fields(context, record);
}

proof fn lemma_row_fields(context: GraphStatsContext<'_>, record: DefaultGraphStudyRecord)
    requires
        !context.builder_name@.contains(','),
        !context.density@.contains(','),
        !record.algorithm@.contains(','),
    ensures
        ({
            let fields = split(graph_stats_row(context, record), ',');
            &&& fields.len() == 14
            &&& forall|i: int|
                0 <= i < 14 ==> #[trigger] fields[i] == field_under(
                    column_names()[i],
                    context,
                    record,
                )
        }),
{
    let fields = seq![
        decimal(context.block_number as nat),
        context.builder_name@,
        decimal(record.group_id as nat),
        record.algorithm@,
        decimal(record.original_order_count as nat),
        decimal(record.selected_order_count as nat),
        decimal(record.edge_count as nat),
        context.density@,
        decimal(record.max_degree as nat),
        bool_text(record.has_missing_traces),
        bool_text(context.orientation_eligible),
        bool_text(context.random_task_added),
        optional_count_text(record.candidate_sequence_count),
        optional_amount_text(record.best_profit),
    ];
    reveal_strlit(",");
    reveal_strlit("true");
    reveal_strlit("false");
    assert(","@ =~= seq![',']);
    lemma_joined(fields);
    assert(graph_stats_row(context, record) == joined_by(fields, ','));
    lemma_decimal_holds_no_comma(context.block_number as nat);
    lemma_decimal_holds_no_comma(record.group_id as nat);
    lemma_decimal_holds_no_comma(record.original_order_count as nat);
    lemma_decimal_holds_no_comma(record.selected_order_count as nat);
    lemma_decimal_holds_no_comma(record.edge_count as nat);
    lemma_decimal_holds_no_comma(record.max_degree as nat);
    if let Some(count) = record.candidate_sequence_count {
        lemma_decimal_holds_no_comma(count as nat);
    }
    if let Some(profit) = record.best_profit {
        lemma_decimal_holds_no_comma(profit.value());
    }
    assert forall|i: int| 0 <= i < fields.len() implies !(#[trigger] fields[i]).contains(',') by {}
    law_splitting_undoes_joining(fields, ',');
    assert forall|i: int| 0 <= i < 14 implies #[trigger] fields[i] == field_under(
        column_names()[i],
        context,
        record,
    ) by {
        assert forall|j: int| 0 <= j < i implies column_names()[j] != column_names()[i] by {
            lemma_names_differ(j, i);
        }
        assert(i > 0 ==> column_names()[0] != column_names()[i]);
        assert(i > 1 ==> column_names()[1] != column_names()[i]);
        assert(i > 2 ==> column_names()[2] != column_names()[i]);
        assert(i > 3 ==> column_names()[3] != column_names()[i]);
        assert(i > 4 ==> column_names()[4] != column_names()[i]);
        assert(i > 5 ==> column_names()[5] != column_names()[i]);
        assert(i > 6 ==> column_names()[6] != column_names()[i]);
        assert(i > 7 ==> column_names()[7] != column_names()[i]);
        assert(i > 8 ==> column_names()[8] != column_names()[i]);
        assert(i > 9 ==> column_names()[9] != column_names()[i]);
        assert(i > 10 ==> column_names()[10] != column_names()[i]);
        assert(i > 11 ==> column_names()[11] != column_names()[i]);
        assert(i > 12 ==> column_names()[12] != column_names()[i]);
    }
}

} // verus!
