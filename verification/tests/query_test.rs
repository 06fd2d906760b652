use wasdb::catalog::catalog::Catalog;
use wasdb::catalog::schema::{Column, Schema, TypeId};
use wasdb::query::executors::{
    join_tuples, Executor, FilterExecutor, NestedLoopJoinExecutor, SeqScanExecutor, Tuple, Value,
};
use wasdb::query::index_scan::IndexScanExecutor;
use wasdb::query::optimizer::{LogicalPlan, Optimizer, PlanExecutor};
use wasdb::query::sort::{value_less, ExternalMergeSortExecutor};
use wasdb::storage::PageId;

fn int_schema() -> Schema {
    Schema::new(vec![Column::new(String::from("id"), TypeId::Integer, 4)])
}

fn collect<E: Executor>(e: &mut E) -> Vec<Tuple> {
    let mut out = Vec::new();
    while let Some(t) = e.next() {
        out.push(t);
    }
    out
}

#[test]
fn test_seq_scan_and_filter() {
    let schema = Schema::new(vec![
        Column::new(String::from("id"), TypeId::Integer, 4),
    ]);

    let tuples = vec![
        vec![Value::Integer(1)],
        vec![Value::Integer(5)],
        vec![Value::Integer(10)],
    ];

    let scan = SeqScanExecutor::new(schema, tuples);

    let mut filter = FilterExecutor::new(Box::new(scan), |t: &Tuple| {
        if let Value::Integer(id) = t[0] {
            id > 1
        } else {
            false
        }
    });

    filter.init();
    assert_eq!(filter.next(), Some(vec![Value::Integer(5)]));
    assert_eq!(filter.next(), Some(vec![Value::Integer(10)]));
    assert_eq!(filter.next(), None);
}

#[test]
fn next_should_return_tuples_in_sorted_order() {
    let schema = Schema::new(vec![Column::new(String::from("id"), TypeId::Integer, 4)]);
    let tuples = vec![
        vec![Value::Integer(10)],
        vec![Value::Integer(1)],
        vec![Value::Integer(5)],
    ];
    let scan = SeqScanExecutor::new(schema, tuples);
    let mut sort = ExternalMergeSortExecutor::new(Box::new(scan), 0);

    sort.init();

    assert_eq!(sort.next(), Some(vec![Value::Integer(1)]));
    assert_eq!(sort.next(), Some(vec![Value::Integer(5)]));
    assert_eq!(sort.next(), Some(vec![Value::Integer(10)]));
    assert_eq!(sort.next(), None);
}

#[test]
fn seq_scan_restarts_after_init() {
    let mut scan = SeqScanExecutor::new(int_schema(), vec![vec![Value::Integer(1)], vec![Value::Integer(2)]]);
    assert_eq!(scan.next(), Some(vec![Value::Integer(1)]));
    scan.init();
    assert_eq!(collect(&mut scan).len(), 2);
    assert_eq!(scan.get_output_schema().columns[0].name, "id");
}

#[test]
fn sort_is_stable_and_orders_strings_and_booleans() {
    let schema = Schema::new(vec![
        Column::new(String::from("k"), TypeId::Varchar, 8),
        Column::new(String::from("n"), TypeId::Integer, 4),
    ]);
    let tuples = vec![
        vec![Value::Varchar("b".to_string()), Value::Integer(1)],
        vec![Value::Varchar("a".to_string()), Value::Integer(2)],
        vec![Value::Varchar("b".to_string()), Value::Integer(3)],
        vec![Value::Varchar("ab".to_string()), Value::Integer(4)],
    ];
    let mut sort = ExternalMergeSortExecutor::new(Box::new(SeqScanExecutor::new(schema, tuples)), 0);
    sort.init();
    let out = collect(&mut sort);
    let order: Vec<Value> = out.iter().map(|t| t[1].clone()).collect();
    assert_eq!(
        order,
        vec![Value::Integer(2), Value::Integer(4), Value::Integer(1), Value::Integer(3)]
    );
    assert!(value_less(&Value::Boolean(false), &Value::Boolean(true)));
    assert!(value_less(&Value::Integer(100), &Value::Varchar(String::new())));
    assert!(!value_less(&Value::Integer(3), &Value::Integer(3)));
}

#[test]
fn index_scan_yields_the_tuples_holding_the_key_after_init() {
    let tuples = vec![
        vec![Value::Integer(1), Value::Integer(10)],
        vec![Value::Integer(2), Value::Integer(20)],
        vec![Value::Integer(1), Value::Integer(30)],
        vec![Value::Varchar("1".to_string()), Value::Integer(40)],
    ];
    let mut scan = IndexScanExecutor::new(int_schema(), tuples, 1, 0);
    scan.init();
    let out = collect(&mut scan);
    assert_eq!(
        out,
        vec![
            vec![Value::Integer(1), Value::Integer(10)],
            vec![Value::Integer(1), Value::Integer(30)],
        ]
    );
}

#[test]
fn nested_loop_join_pairs_matching_tuples_in_left_major_order() {
    let left = SeqScanExecutor::new(int_schema(), vec![vec![Value::Integer(1)], vec![Value::Integer(2)]]);
    let right = SeqScanExecutor::new(
        int_schema(),
        vec![vec![Value::Integer(2)], vec![Value::Integer(1)], vec![Value::Integer(1)]],
    );
    let mut join = NestedLoopJoinExecutor::new(Box::new(left), Box::new(right), |a: &Tuple, b: &Tuple| a[0] == b[0], int_schema());
    assert_eq!(join.next(), None);
    join.init();
    let out = collect(&mut join);
    assert_eq!(
        out,
        vec![
            vec![Value::Integer(1), Value::Integer(1)],
            vec![Value::Integer(1), Value::Integer(1)],
            vec![Value::Integer(2), Value::Integer(2)],
        ]
    );
}

#[test]
fn join_tuples_concatenates_accepted_pairs() {
    let lefts = vec![vec![Value::Boolean(true)], vec![Value::Boolean(false)]];
    let rights = vec![vec![Value::Integer(7)]];
    let out = join_tuples(&lefts, &rights, &|a: &Tuple, _b: &Tuple| a[0] == Value::Boolean(true));
    assert_eq!(out, vec![vec![Value::Boolean(true), Value::Integer(7)]]);
}

fn catalog_with_users(indexed: bool) -> Catalog {
    let mut catalog = Catalog::new();
    let mut id = Column::new("id".to_string(), TypeId::Integer, 4);
    id.is_primary_key = indexed;
    let schema = Schema::new(vec![id, Column::new("score".to_string(), TypeId::Integer, 4)]);
    catalog.create_table("users".to_string(), schema, PageId { file_id: 0, page_num: 0 }).unwrap();
    catalog
}

fn users_data() -> Vec<(String, Vec<Tuple>)> {
    vec![(
        "users".to_string(),
        vec![
            vec![Value::Integer(1), Value::Integer(50)],
            vec![Value::Integer(2), Value::Integer(70)],
            vec![Value::Integer(3), Value::Integer(90)],
        ],
    )]
}

fn score_above_60(t: &Tuple) -> bool {
    matches!(t[1], Value::Integer(s) if s > 60)
}

fn same_id(a: &Tuple, b: &Tuple) -> bool {
    a[0] == b[0]
}

type Plan = LogicalPlan<fn(&Tuple) -> bool, fn(&Tuple, &Tuple) -> bool>;

#[test]
fn optimizer_builds_a_sequential_scan() {
    let catalog = catalog_with_users(false);
    let data = users_data();
    let optimizer = Optimizer::new(&catalog, &data);
    let plan: Plan = LogicalPlan::SeqScan { table_name: "users".to_string() };
    let mut exec = optimizer.optimize(plan).unwrap();
    assert!(matches!(exec, PlanExecutor::SeqScan(_)));
    exec.init();
    assert_eq!(collect(&mut exec).len(), 3);
    assert_eq!(exec.get_output_schema().columns.len(), 2);
}

#[test]
fn optimizer_refuses_an_unknown_table() {
    let catalog = catalog_with_users(false);
    let data = users_data();
    let optimizer = Optimizer::new(&catalog, &data);
    let plan: Plan = LogicalPlan::SeqScan { table_name: "nope".to_string() };
    assert!(optimizer.optimize(plan).is_err());
}

#[test]
fn optimizer_refuses_an_index_scan_without_index() {
    let catalog = catalog_with_users(false);
    let data = users_data();
    let optimizer = Optimizer::new(&catalog, &data);
    let plan: Plan = LogicalPlan::IndexScan { table_name: "users".to_string(), key: 1 };
    match optimizer.optimize(plan) {
        Err(message) => assert_eq!(message, "No index found on users"),
        Ok(_) => panic!("expected an error"),
    }
}

#[test]
fn optimizer_turns_an_indexed_equality_filter_into_an_index_scan() {
    let catalog = catalog_with_users(true);
    let data = users_data();
    let optimizer = Optimizer::new(&catalog, &data);
    let plan: Plan = LogicalPlan::Filter {
        child: Box::new(LogicalPlan::SeqScan { table_name: "users".to_string() }),
        predicate: score_above_60,
        index_match: Some(("id".to_string(), 2)),
    };
    let mut exec = optimizer.optimize(plan).unwrap();
    assert!(matches!(exec, PlanExecutor::IndexScan(_)));
    exec.init();
    assert_eq!(collect(&mut exec), vec![vec![Value::Integer(2), Value::Integer(70)]]);
}

#[test]
fn optimizer_keeps_a_filter_on_a_column_without_index() {
    let catalog = catalog_with_users(true);
    let data = users_data();
    let optimizer = Optimizer::new(&catalog, &data);
    let plan: Plan = LogicalPlan::Filter {
        child: Box::new(LogicalPlan::SeqScan { table_name: "users".to_string() }),
        predicate: score_above_60,
        index_match: Some(("score".to_string(), 70)),
    };
    let mut exec = optimizer.optimize(plan).unwrap();
    assert!(matches!(exec, PlanExecutor::Filter { .. }));
    exec.init();
    assert_eq!(
        collect(&mut exec),
        vec![vec![Value::Integer(2), Value::Integer(70)], vec![Value::Integer(3), Value::Integer(90)]]
    );
}

#[test]
fn optimizer_builds_a_nested_loop_join() {
    let catalog = catalog_with_users(false);
    let data = users_data();
    let optimizer = Optimizer::new(&catalog, &data);
    let plan: Plan = LogicalPlan::NestedLoopJoin {
        left: Box::new(LogicalPlan::SeqScan { table_name: "users".to_string() }),
        right: Box::new(LogicalPlan::SeqScan { table_name: "users".to_string() }),
        predicate: same_id,
    };
    let mut exec = optimizer.optimize(plan).unwrap();
    exec.init();
    let out = collect(&mut exec);
    assert_eq!(out.len(), 3);
    assert_eq!(out[1], vec![Value::Integer(2), Value::Integer(70), Value::Integer(2), Value::Integer(70)]);
    assert_eq!(exec.get_output_schema().columns.len(), 2);
}

fn score_is_90(t: &Tuple) -> bool {
    t[1] == Value::Integer(90)
}

#[test]
fn optimizer_keys_the_index_scan_on_the_first_index() {
    // both columns are primary keys: the index on `score` is the second one,
    // and the index scan reads the column of the first (`id`)
    let mut catalog = Catalog::new();
    let mut id = Column::new("id".to_string(), TypeId::Integer, 4);
    id.is_primary_key = true;
    let mut score = Column::new("score".to_string(), TypeId::Integer, 4);
    score.is_primary_key = true;
    catalog
        .create_table("users".to_string(), Schema::new(vec![id, score]), PageId { file_id: 0, page_num: 0 })
        .unwrap();
    let data = users_data();
    let optimizer = Optimizer::new(&catalog, &data);
    let plan: Plan = LogicalPlan::Filter {
        child: Box::new(LogicalPlan::SeqScan { table_name: "users".to_string() }),
        predicate: score_is_90,
        index_match: Some(("score".to_string(), 90)),
    };
    let mut exec = optimizer.optimize(plan).unwrap();
    assert!(matches!(exec, PlanExecutor::IndexScan(_)));
    exec.init();
    assert_eq!(collect(&mut exec), Vec::<Vec<Value>>::new());
}

#[test]
fn optimizer_names_the_missing_table() {
    let catalog = Catalog::new();
    let data: Vec<(String, Vec<Tuple>)> = Vec::new();
    let optimizer = Optimizer::new(&catalog, &data);
    let plan: Plan = LogicalPlan::SeqScan { table_name: "t".to_string() };
    match optimizer.optimize(plan) {
        Err(message) => assert_eq!(message, "TableNotFound(\"t\")"),
        Ok(_) => panic!("expected an error"),
    }
}
