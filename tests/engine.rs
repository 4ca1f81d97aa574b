use sheet_engine::cell::{Cell, CellData};
use sheet_engine::database::Database;
use sheet_engine::dep_store::DepStore;
use sheet_engine::evaluator::{dispatch, evaluate, Work};
use sheet_engine::parser::parse;
use sheet_engine::range::{DependencyData, DependencyNums, DependencyObject};
use sheet_engine::utils::topological_sort;

/// Single-precision arithmetic for the work the library hands back.
fn as_f32(d: CellData) -> f32 {
    match d {
        CellData::IntData(i) => i as f32,
        CellData::FloatData(b) => f32::from_bits(b),
    }
}

fn arith(op: u8, a: CellData, b: CellData) -> CellData {
    let (x, y) = (as_f32(a), as_f32(b));
    let v = match op {
        3 => x + y,
        4 => x - y,
        5 => x * y,
        _ => x / y,
    };
    CellData::FloatData(v.to_bits())
}

fn aggregate(op: u8, values: &Vec<Vec<CellData>>) -> CellData {
    let all: Vec<f32> = values.iter().flatten().map(|d| as_f32(*d)).collect();
    let n = all.len() as f32;
    let sum: f32 = all.iter().sum();
    let v = match op {
        7 => all.iter().cloned().fold(f32::INFINITY, f32::min),
        8 => all.iter().cloned().fold(f32::NEG_INFINITY, f32::max),
        9 => sum / n,
        10 => sum,
        _ => {
            let mean = sum / n;
            (all.iter().map(|x| (x - mean) * (x - mean)).sum::<f32>() / n).sqrt()
        }
    };
    CellData::FloatData(v.to_bits())
}

struct Sheet {
    db: Database,
    topleft: u32,
    running: bool,
    display: bool,
    pauses: Vec<CellData>,
}

impl Sheet {
    fn new() -> Sheet {
        Sheet { db: Database::new(100, 100), topleft: 0, running: true, display: true, pauses: vec![] }
    }

    fn run(&mut self, line: &str) -> i32 {
        let r = parse(line);
        let d = dispatch(&r, &mut self.db, &mut self.topleft, &mut self.running, &mut self.display);
        for &c in d.cascade.iter() {
            match evaluate(&mut self.db, c) {
                Work::Done => {}
                Work::Pause(v) => self.pauses.push(v),
                Work::Arith { op, a, b } => self.db.complete(c, arith(op, a, b)),
                Work::Aggregate { op, values } => self.db.complete(c, aggregate(op, &values)),
            }
        }
        d.status
    }

    fn get(&self, id: u32) -> Result<CellData, bool> {
        self.db.get(id)
    }

    fn dep(&self, id: u32) -> Option<DependencyData> {
        self.db.get_cell_parent_dep(id)
    }
}

fn float(v: f32) -> CellData {
    CellData::FloatData(v.to_bits())
}

#[test]
fn literal_set() {
    let mut s = Sheet::new();
    assert_eq!(s.run("A1=100"), 0);
    assert_eq!(s.get(0), Ok(CellData::IntData(100)));
    assert_eq!((s.topleft, s.running, s.display), (0, true, true));
}

#[test]
fn literal_arithmetic_has_no_formula() {
    let mut s = Sheet::new();
    assert_eq!(s.run("A1=50+50"), 0);
    assert_eq!(s.get(0), Ok(CellData::IntData(100)));
    assert_eq!(s.dep(0), None);
}

#[test]
fn absent_operand_reads_zero() {
    let mut s = Sheet::new();
    assert_eq!(s.run("A1=B1+100"), 0);
    assert_eq!(s.get(0), Ok(CellData::IntData(100)));
    assert_eq!(
        s.dep(0),
        Some(DependencyData::new(3, DependencyNums::U32(1000), DependencyNums::I32(100)))
    );
}

#[test]
fn change_cascades() {
    let mut s = Sheet::new();
    s.run("A1=100");
    assert_eq!(s.run("B1=2"), 0);
    assert_eq!(s.run("C1=A1/B1"), 0);
    assert_eq!(s.get(2000), Ok(CellData::IntData(50)));
    assert_eq!(s.run("B1=1"), 0);
    assert_eq!(s.get(2000), Ok(CellData::IntData(100)));
    assert_eq!(s.db.get_cell(2000).unwrap().error, false);
}

#[test]
fn division_by_zero_sets_error() {
    let mut s = Sheet::new();
    s.run("A1=100");
    s.run("B1=0");
    assert_eq!(s.run("C1=A1/B1"), 0);
    assert_eq!(s.get(2000), Err(true));
    assert_eq!(s.db.get_cell(2000).unwrap().error, true);
    assert_eq!(s.run("B1=4"), 0);
    assert_eq!(s.get(2000), Ok(CellData::IntData(25)));
}

#[test]
fn literal_division_by_zero() {
    let mut s = Sheet::new();
    assert_eq!(s.run("A1=5/0"), 0);
    assert_eq!(s.get(0), Err(true));
}

#[test]
fn aggregates_over_row() {
    let mut s = Sheet::new();
    s.run("A1=100");
    s.run("A2=A1+30");
    s.run("B2=A2*10");
    s.run("C2=B2-A1");
    assert_eq!(s.get(1), Ok(CellData::IntData(130)));
    assert_eq!(s.get(1001), Ok(CellData::IntData(1300)));
    assert_eq!(s.get(2001), Ok(CellData::IntData(1200)));

    let mut db = Database::new(100, 100);
    let (mut t, mut r, mut d) = (0u32, true, true);
    for line in ["A2=130", "B2=1300", "C2=1200"] {
        let resp = parse(line);
        let out = dispatch(&resp, &mut db, &mut t, &mut r, &mut d);
        for &c in out.cascade.iter() {
            let _ = evaluate(&mut db, c);
        }
    }
    let resp = parse("A3=MAX(A2:C2)");
    let out = dispatch(&resp, &mut db, &mut t, &mut r, &mut d);
    assert_eq!(out.status, 0);
    assert_eq!(out.cascade, vec![2]);
    match evaluate(&mut db, 2) {
        Work::Aggregate { op, values } => {
            assert_eq!(op, 8);
            assert_eq!(
                values,
                vec![
                    vec![CellData::IntData(130)],
                    vec![CellData::IntData(1300)],
                    vec![CellData::IntData(1200)]
                ]
            );
        }
        w => panic!("unexpected {:?}", w),
    }

    assert_eq!(s.run("A3=MAX(A2:C2)"), 0);
    assert_eq!(s.run("B3=MIN(A2:C2)"), 0);
    assert_eq!(s.run("C3=SUM(A2:C2)"), 0);
    assert_eq!(s.run("D3=AVG(A2:C2)"), 0);
    assert_eq!(s.run("E3=STDEV(A2:C2)"), 0);
    assert_eq!(s.get(2), Ok(float(1300.0)));
    assert_eq!(s.get(1002), Ok(float(130.0)));
    assert_eq!(s.get(2002), Ok(float(2630.0)));
    assert_eq!(s.get(3002), Ok(float(2630.0 / 3.0)));
    match s.get(4002) {
        // population standard deviation, the squared deviations summed before dividing
        Ok(CellData::FloatData(b)) => assert!((f32::from_bits(b) - 529.549).abs() < 1e-2),
        other => panic!("unexpected {:?}", other),
    }
}

#[test]
fn aggregate_over_absent_cells_reads_zero() {
    let mut db = Database::new(100, 100);
    let (mut t, mut r, mut d) = (0u32, true, true);
    let resp = parse("A1=SUM(B2:C3)");
    let out = dispatch(&resp, &mut db, &mut t, &mut r, &mut d);
    assert_eq!(out.status, 0);
    match evaluate(&mut db, 0) {
        Work::Aggregate { op, values } => {
            assert_eq!(op, 10);
            assert_eq!(values.len(), 2);
            for column in values.iter() {
                assert_eq!(column, &vec![CellData::IntData(0), CellData::IntData(0)]);
            }
            assert_eq!(aggregate(op, &values), float(0.0));
            for code in [7u8, 8, 9, 11] {
                assert_eq!(aggregate(code, &values), float(0.0));
            }
        }
        w => panic!("unexpected {:?}", w),
    }
}

#[test]
fn aggregate_error_propagates() {
    let mut s = Sheet::new();
    s.run("B1=0");
    s.run("A2=5/B1");
    assert_eq!(s.get(1), Err(true));
    assert_eq!(s.run("C5=SUM(A1:B3)"), 0);
    assert_eq!(s.get(2004), Err(true));
    assert_eq!(s.run("B1=5"), 0);
    assert_eq!(s.get(1), Ok(CellData::IntData(1)));
    assert_eq!(s.get(2004), Ok(float(6.0)));
}

#[test]
fn cycle_is_rolled_back() {
    let mut s = Sheet::new();
    assert_eq!(s.run("A1=B1"), 0);
    let before_a = s.db.get_cell(0);
    let before_b = s.db.get_cell(1000);
    assert_eq!(s.run("B1=A1"), 3);
    assert_eq!(s.db.get_cell(0), before_a);
    assert_eq!(s.db.get_cell(1000), before_b);
    assert_eq!(s.db.is_cell_initialized(1000), Ok(false));
    assert_eq!(s.db.get_cell_children(1000), vec![0]);
    assert_eq!(s.db.get_cell_children(0), Vec::<u32>::new());
    assert_eq!(s.run("B1=7"), 0);
    assert_eq!(s.get(0), Ok(CellData::IntData(7)));
}

#[test]
fn range_cycle_is_rolled_back() {
    let mut s = Sheet::new();
    s.run("A1=100");
    s.run("A2=A1+30");
    assert_eq!(s.run("A1=MAX(A2:C2)"), 3);
    assert_eq!(s.get(0), Ok(CellData::IntData(100)));
    assert_eq!(s.dep(0), None);
}

#[test]
fn rollback_restores_prior_formula() {
    let mut s = Sheet::new();
    s.run("C1=5");
    s.run("A1=C1*2");
    s.run("B1=A1+1");
    assert_eq!(s.run("A1=B1"), 3);
    assert_eq!(
        s.dep(0),
        Some(DependencyData::new(5, DependencyNums::U32(2000), DependencyNums::I32(2)))
    );
    assert_eq!(s.run("C1=6"), 0);
    assert_eq!(s.get(0), Ok(CellData::IntData(12)));
    assert_eq!(s.get(1000), Ok(CellData::IntData(13)));
}

#[test]
fn sleep_copies_value() {
    let mut s = Sheet::new();
    assert_eq!(s.run("F3=SLEEP(1)"), 0);
    assert_eq!(
        s.dep(5002),
        Some(DependencyData::new(12, DependencyNums::I32(1), DependencyNums::I32(0)))
    );
    assert_eq!(s.run("G3=SLEEP(F3)"), 0);
    assert_eq!(
        s.dep(6002),
        Some(DependencyData::new(12, DependencyNums::U32(5002), DependencyNums::I32(0)))
    );
    assert_eq!(s.get(5002), Ok(CellData::IntData(1)));
    assert_eq!(s.get(6002), Ok(CellData::IntData(1)));
    assert_eq!(s.pauses, vec![CellData::IntData(1), CellData::IntData(1)]);
}

#[test]
fn literal_set_twice_is_set_once() {
    let mut s = Sheet::new();
    s.run("B1=A1+1");
    s.run("A1=4");
    let once = (s.db.get_cell(0), s.db.get_cell(1000));
    s.run("A1=4");
    assert_eq!((s.db.get_cell(0), s.db.get_cell(1000)), once);
}

#[test]
fn overwrite_drops_formula_and_edges() {
    let mut s = Sheet::new();
    s.run("A1=B1+C1");
    assert_eq!(s.db.get_cell_children(1000), vec![0]);
    s.run("A1=3");
    assert_eq!(s.dep(0), None);
    assert_eq!(s.db.get_cell_children(1000), Vec::<u32>::new());
    assert_eq!(s.db.get_cell_children(2000), Vec::<u32>::new());
    s.run("A1=SUM(B1:C2)");
    assert_eq!(s.db.get_cell_children(2001), vec![0]);
    s.run("A1=3");
    assert_eq!(s.db.get_cell_children(2001), Vec::<u32>::new());
    assert!(!s.db.cell_has_child(2001));
}

#[test]
fn view_commands() {
    let mut s = Sheet::new();
    assert_eq!(s.run("s"), 0);
    assert_eq!(s.topleft, 10);
    assert_eq!(s.run("d"), 0);
    assert_eq!(s.topleft, 10010);
    assert_eq!(s.run("w"), 0);
    assert_eq!(s.topleft, 10000);
    assert_eq!(s.run("a"), 0);
    assert_eq!(s.topleft, 0);
    assert_eq!(s.run("w"), 0);
    assert_eq!(s.topleft, 0);
    assert_eq!(s.run("scroll_to D10"), 0);
    assert_eq!(s.topleft, 3009);
    assert_eq!(s.run("disable_output"), 0);
    assert!(!s.display);
    assert_eq!(s.run("enable_output"), 0);
    assert!(s.display);
    assert_eq!(s.run("q"), -1);
    assert!(!s.running);
}

#[test]
fn status_codes() {
    let mut s = Sheet::new();
    assert_eq!(s.run("A1=MAX(Z1:X1)"), 2);
    assert_eq!(s.run("hello"), 1);
    assert_eq!(s.run("ZZ1=3"), 4);
    assert_eq!(s.run("A1=ZZ1"), 4);
    assert_eq!(s.db.is_cell_initialized(0), Ok(false));
    assert_eq!(s.run("A1=2147483647+1"), 0);
    assert_eq!(s.get(0), Err(true));
}

#[test]
fn integer_overflow_sets_error() {
    let mut s = Sheet::new();
    s.run("B1=2147483647");
    assert_eq!(s.run("A1=B1*2"), 0);
    assert_eq!(s.get(0), Err(true));
}

#[test]
fn mixed_arithmetic_is_real() {
    let mut db = Database::new(10, 10);
    db.set_data(0, float(2.5)).unwrap();
    let (mut t, mut r, mut d) = (0u32, true, true);
    let out = dispatch(&parse("B1=A1*2"), &mut db, &mut t, &mut r, &mut d);
    assert_eq!(out.status, 0);
    match evaluate(&mut db, 1000) {
        Work::Arith { op, a, b } => {
            assert_eq!(op, 5);
            assert_eq!(a, float(2.5));
            assert_eq!(b, CellData::IntData(2));
        }
        w => panic!("unexpected {:?}", w),
    }
    db.set_data(2, float(-0.0)).unwrap();
    let out = dispatch(&parse("C1=B1/A3"), &mut db, &mut t, &mut r, &mut d);
    assert_eq!(out.status, 0);
    assert!(matches!(evaluate(&mut db, 2000), Work::Done));
    assert_eq!(db.get(2000), Err(true));
}

#[test]
fn database_accessors() {
    let mut db = Database::new(10, 20);
    assert_eq!(db.num_rows(), 10);
    assert_eq!(db.num_cols(), 20);
    assert!(db.cell_in_range(19009));
    assert!(!db.cell_in_range(20000));
    assert!(!db.cell_in_range(10));
    assert_eq!(db.get(5), Ok(CellData::IntData(0)));
    assert_eq!(db.get(10), Err(false));
    assert_eq!(db.get_cell(5), Err(true));
    assert_eq!(db.set_error(5, true), Err(()));
    assert_eq!(db.set_int(5, 9), Ok(()));
    assert_eq!(db.get_cell_clone(5), Ok(Cell::new_i(9)));
    assert_eq!(db.set_error(5, true), Ok(()));
    assert_eq!(db.get(5), Err(true));
    assert_eq!(db.set_int(10, 1), Err(()));
}

#[test]
fn cell_methods() {
    let mut c = Cell::new_i(100);
    assert_eq!(c.get_data(), Ok(CellData::IntData(100)));
    assert!(!c.has_error());
    assert!(!c.has_dep());
    let d = DependencyData::new(2, DependencyNums::U32(1001), DependencyNums::I32(3));
    assert_eq!(c.modify_dep(d), None);
    assert_eq!(c.get_dep(), Some(d));
    assert_eq!(c.modify_dep(d), Some(d));
    c.set_error(true);
    assert_eq!(c.get_data(), Err(()));
    c.rem_dep();
    assert!(!c.has_dep());
    c.set_data_i(4);
    c.set_data(CellData::IntData(5));
    c.set_error(false);
    assert_eq!(c.get_data(), Ok(CellData::IntData(5)));
    assert_eq!(d.get_oper(), 2);
    assert_eq!(d.get_pre(), DependencyNums::U32(1001));
    assert_eq!(d.get_post(), DependencyNums::I32(3));
    assert!(CellData::IntData(0).is_zero_value());
    assert!(float(-0.0).is_zero_value());
    assert!(!float(0.5).is_zero_value());
}

#[test]
fn test_dep_store() {
    let mut store = DepStore::new();
    store.insert(DependencyObject::new(1001, 0, DependencyNums::U32(2002), DependencyNums::U32(4004)));
    store.insert(DependencyObject::new(10010, 0, DependencyNums::U32(5005), DependencyNums::U32(9009)));
    let v = store.get_from_point(3005);
    let v1: Vec<u32> = vec![];
    assert!(v == v1);
    assert_eq!(store.get_from_point(3003), vec![1001]);
    assert_eq!(store.get_from_point(7007), vec![10010]);
    store.remove(DependencyObject::new(1001, 0, DependencyNums::U32(2002), DependencyNums::U32(4004)));
    assert_eq!(store.get_from_point(3003), Vec::<u32>::new());
    let obj = DependencyObject::from_dep_data(7, DependencyData::new(10, DependencyNums::U32(0), DependencyNums::U32(0)));
    assert_eq!(obj.get_target(), 7);
}

#[test]
fn topological_order_puts_producers_first() {
    let mut s = Sheet::new();
    s.run("B1=A1+1");
    s.run("C1=B1*2");
    s.run("D1=A1+C1");
    let order = topological_sort(&s.db, 0).unwrap();
    assert_eq!(order[0], 0);
    let pos = |x: u32| order.iter().position(|&y| y == x).unwrap();
    assert!(pos(1000) < pos(2000));
    assert!(pos(2000) < pos(3000));
    assert_eq!(order.len(), 4);
    s.run("A1=3");
    assert_eq!(s.get(3000), Ok(CellData::IntData(11)));
}

#[test]
fn test_cell_creation() {
    let data = CellData::IntData(100);
    let dep = Some(DependencyData::new(2, DependencyNums::U32(1001), DependencyNums::I32(3)));
    let cell = Cell { data, error: false, dependencies: dep };
    assert!(matches!(cell.data, CellData::IntData(100)), "Cell data creation failed");
    assert_eq!(cell.error, false, "Cell error flag creation failed");
}

#[test]
fn test() {
    let mut s = Sheet::new();

    let r = parse("A1=100");
    assert!(r == sheet_engine::parser::Response { status: 0, func: 1, target: 1001, arg1: 100, arg2: 0, arg_type: 0 }, "r = {:?}", r);
    assert!(s.run("A1=100") == 0);
    assert!((s.topleft, s.running, s.display) == (0, true, true));
    assert!(s.get(0) == Ok(CellData::IntData(100)));

    let r = parse("A1=50+50");
    assert!(r == sheet_engine::parser::Response { status: 0, func: 3, target: 1001, arg1: 50, arg2: 50, arg_type: 0 }, "r = {:?}", r);
    assert!(s.run("A1=50+50") == 0);
    assert!((s.topleft, s.running, s.display) == (0, true, true));
    assert!(s.get(0) == Ok(CellData::IntData(100)));

    let r = parse("A1=B1+100");
    assert!(r == sheet_engine::parser::Response { status: 0, func: 3, target: 1001, arg1: 2001, arg2: 100, arg_type: 2 }, "r = {:?}", r);
    assert!(s.run("A1=B1+100") == 0);
    assert!((s.topleft, s.running, s.display) == (0, true, true));
    assert!(s.get(0) == Ok(CellData::IntData(100)));
    assert!(s.dep(0) == Some(DependencyData::new(3, DependencyNums::U32(1000), DependencyNums::I32(100))));

    let r = parse("A1=100");
    assert!(r == sheet_engine::parser::Response { status: 0, func: 1, target: 1001, arg1: 100, arg2: 0, arg_type: 0 }, "r = {:?}", r);
    assert!(s.run("A1=100") == 0);
    assert!((s.topleft, s.running, s.display) == (0, true, true));
    assert!(s.get(0) == Ok(CellData::IntData(100)));
    assert!(s.dep(0) == None);

    let r = parse("C1=A1/B1");
    assert!(r == sheet_engine::parser::Response { status: 0, func: 6, target: 3001, arg1: 1001, arg2: 2001, arg_type: 3 }, "r = {:?}", r);
    assert!(s.run("C1=A1/B1") == 0);
    assert!((s.topleft, s.running, s.display) == (0, true, true));
    assert!(s.get(2000) == Err(true));
    assert!(s.dep(2000) == Some(DependencyData::new(6, DependencyNums::U32(0), DependencyNums::U32(1000))));

    let r = parse("B1=1");
    assert!(r == sheet_engine::parser::Response { status: 0, func: 1, target: 2001, arg1: 1, arg2: 0, arg_type: 0 }, "r = {:?}", r);
    assert!(s.run("B1=1") == 0);
    assert!((s.topleft, s.running, s.display) == (0, true, true));
    assert!(s.get(2000) == Ok(CellData::IntData(100)), "val = {:?}", s.get(2000));
    assert!(s.dep(2000) == Some(DependencyData::new(6, DependencyNums::U32(0), DependencyNums::U32(1000))));

    s.run("B1=2");
    assert!(s.get(2000) == Ok(CellData::IntData(50)));

    s.run("A2=A1+30");
    s.run("B2=A2*10");
    s.run("C2=B2-A1");
    assert!(s.get(1) == Ok(CellData::IntData(130)), "val = {:?}", s.get(1));
    assert!(s.get(1001) == Ok(CellData::IntData(1300)), "val = {:?}", s.get(1001));
    assert!(s.get(2001) == Ok(CellData::IntData(1200)), "val = {:?}", s.get(2001));

    let r = parse("A1=MAX(A2:C2)");
    assert!(r == sheet_engine::parser::Response { target: 1001, status: 0, func: 8, arg1: 1002, arg2: 3002, arg_type: 3 });
    assert!(s.run("A1=MAX(A2:C2)") == 3);
    assert!((s.topleft, s.running, s.display) == (0, true, true));
    assert!(s.get(0) == Ok(CellData::IntData(100)), "val = {:?}", s.get(0));
    assert!(s.dep(0) == None);

    s.run("A3=MAX(A2:C2)");
    s.run("B3=MIN(A2:C2)");
    s.run("C3=SUM(A2:C2)");
    s.run("D3=AVG(A2:C2)");
    s.run("E3=STDEV(A2:C2)");
    assert!(s.get(2) == Ok(float(1300.0)), "val = {:?}", s.get(2));
    assert!(s.get(1002) == Ok(float(130.0)), "val = {:?}", s.get(1002));
    assert!(s.get(2002) == Ok(float(2630.0)), "val = {:?}", s.get(2002));
    assert!(s.get(3002) == Ok(float(2630.0 / 3.0)), "val = {:?}", s.get(3002));
    // population standard deviation of 130, 1300 and 1200
    match s.get(4002) {
        Ok(CellData::FloatData(b)) => assert!((f32::from_bits(b) - 529.549).abs() < 1e-2),
        other => panic!("val = {:?}", other),
    }

    s.run("F3=SLEEP(1)");
    assert!(s.dep(5002) == Some(DependencyData::new(12, DependencyNums::I32(1), DependencyNums::I32(0))));
    s.run("G3=SLEEP(F3)");
    assert!(s.dep(6002) == Some(DependencyData::new(12, DependencyNums::U32(5002), DependencyNums::I32(0))));
    assert!(s.get(5002) == Ok(CellData::IntData(1)), "val = {:?}", s.get(5002));
    assert!(s.get(6002) == Ok(CellData::IntData(1)), "val = {:?}", s.get(6002));

    s.run("disable_output");
    assert!(s.display == false);
    s.run("enable_output");
    assert!(s.display == true);
    let ec = s.run("q");
    assert!(s.running == false);
    assert!(ec == -1);
    s.running = true;

    s.run("A4=A1+B1");
    s.run("B4=A4-100");
    s.run("C4=B4*A4");
    assert!(s.get(3) == Ok(CellData::IntData(102)), "val = {:?}", s.get(3));
    assert!(s.get(1003) == Ok(CellData::IntData(2)), "val = {:?}", s.get(1003));
    assert!(s.get(2003) == Ok(CellData::IntData(204)), "val = {:?}", s.get(2003));

    s.run("A5=B5");
    s.run("B5=A1");
    assert!(s.get(4) == s.get(1004));
    assert!(s.get(0) == s.get(1004));
}

#[test]
fn test_scroll() {
    let mut s = Sheet::new();
    let r = parse("scroll_to D10");
    assert!(r == sheet_engine::parser::Response { status: 0, func: 20, target: 4010, arg1: 0, arg2: 0, arg_type: 0 }, "r = {:?}", r);
    let ec = s.run("scroll_to D10");
    assert!((s.topleft, s.running, s.display) == (3009, true, true));
    assert!(ec == 0);
}

#[test]
fn test_wasd() {
    let mut s = Sheet::new();
    let r = parse("s");
    assert!(r == sheet_engine::parser::Response { status: 0, func: 16, target: 0, arg1: 0, arg2: 0, arg_type: 0 }, "r = {:?}", r);
    let ec = s.run("s");
    assert!((s.topleft, s.running, s.display) == (10, true, true));
    assert!(ec == 0);

    let ec = s.run("d");
    assert!((s.topleft, s.running, s.display) == (10010, true, true));
    assert!(ec == 0);

    let ec = s.run("w");
    assert!((s.topleft, s.running, s.display) == (10000, true, true));
    assert!(ec == 0);

    let ec = s.run("a");
    assert!((s.topleft, s.running, s.display) == (0, true, true));
    assert!(ec == 0);

    s.topleft = 0;
    let ec = s.run("w");
    assert!(s.topleft == 0);
    assert!(ec == 0);

    let ec = s.run("a");
    assert!(s.topleft == 0);
    assert!(ec == 0);
}

#[test]
fn off_grid_argument_wins_over_shape() {
    let mut db = Database::new(100, 100);
    let (mut t, mut r, mut d) = (0u32, true, true);
    let cmd = sheet_engine::parser::Response { status: 0, func: 8, target: 1001, arg1: 500_001, arg2: 3, arg_type: 2 };
    assert_eq!(dispatch(&cmd, &mut db, &mut t, &mut r, &mut d).status, 4);
    let cmd = sheet_engine::parser::Response { status: 0, func: 8, target: 1001, arg1: 2001, arg2: 3, arg_type: 2 };
    assert_eq!(dispatch(&cmd, &mut db, &mut t, &mut r, &mut d).status, 2);
    assert_eq!(db.is_cell_initialized(0), Ok(false));
}

#[test]
fn sort_of_empty_sheet_is_root_alone() {
    let db = Database::new(100, 100);
    assert_eq!(topological_sort(&db, 0), Ok(vec![0]));
    assert_eq!(topological_sort(&db, 5042), Ok(vec![5042]));
}
