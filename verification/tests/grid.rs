use sudoku::presets;
use sudoku::structure::{Solver, Sudoku};

#[test]
fn test_sudoku_display() {
    let have = presets::load_easy().to_string();
    let want = "
 3 4   |       |   7  
 8     | 4   7 | 2 5  
 7   6 | 8     | 3   9
-------+-------+-------
   1 3 |     6 | 4    
     7 |     4 |   1  
     4 |       | 6   3
-------+-------+-------
   7 9 | 6 5   | 1   2
       | 7     | 5 9 8
   3   | 2 9 1 | 7    "
        .strip_prefix('\n')
        .unwrap();
    assert_eq!(have, want);
}

#[test]
fn test_sudoku_solve() {
    let mut s = Sudoku::default();

    // Make sure no solve is possible.
    assert_eq!(s.solve(), 0);
    assert_eq!(s.cells[0].value(), 0);
    for i in 1..=8 {
        s.cells[0].shut(i)
    }

    // Make sure solve() now works.
    assert_eq!(s.solve(), 1);
    assert_eq!(s.cells[0].value(), 9);
}

#[test]
fn test_sudoku_parse() {
    let s: Sudoku = "
0 0 7 0 0 0 0 0 5
5 0 0 4 2 0 0 0 1
0 4 0 0 0 5 6 0 0
6 0 5 1 0 0 0 0 0
0 0 0 0 0 8 0 0 0
2 0 0 0 0 0 0 8 0
9 2 0 0 7 0 0 5 0
0 7 3 0 0 6 0 0 0
0 0 1 0 0 9 0 0 2"
        .parse()
        .unwrap();
    assert_eq!(s.cells[0].value(), 0);
    assert_eq!(s.cells[1].value(), 0);
    assert_eq!(s.cells[2].value(), 7);
    assert_eq!(s.cells[3].value(), 0);
    assert_eq!(s.cells[4].value(), 0);
    assert_eq!(s.cells[5].value(), 0);
    assert_eq!(s.cells[6].value(), 0);
    assert_eq!(s.cells[7].value(), 0);
    assert_eq!(s.cells[8].value(), 5);
    assert_eq!(s.cells[9].value(), 5);
    assert_eq!(s.cells[10].value(), 0);
    assert_eq!(s.cells[11].value(), 0);
    assert_eq!(s.cells[12].value(), 4);
    assert_eq!(s.cells[13].value(), 2);
    assert_eq!(s.cells[14].value(), 0);
    assert_eq!(s.cells[15].value(), 0);
    assert_eq!(s.cells[16].value(), 0);
    assert_eq!(s.cells[17].value(), 1);
    assert_eq!(s.cells[18].value(), 0);
    assert_eq!(s.cells[19].value(), 4);
    assert_eq!(s.cells[20].value(), 0);
    assert_eq!(s.cells[21].value(), 0);
    assert_eq!(s.cells[22].value(), 0);
    assert_eq!(s.cells[23].value(), 5);
    assert_eq!(s.cells[24].value(), 6);
    assert_eq!(s.cells[25].value(), 0);
    assert_eq!(s.cells[26].value(), 0);
    assert_eq!(s.cells[27].value(), 6);
    assert_eq!(s.cells[28].value(), 0);
    assert_eq!(s.cells[29].value(), 5);
    assert_eq!(s.cells[30].value(), 1);
    assert_eq!(s.cells[31].value(), 0);
    assert_eq!(s.cells[32].value(), 0);
    assert_eq!(s.cells[33].value(), 0);
    assert_eq!(s.cells[34].value(), 0);
    assert_eq!(s.cells[35].value(), 0);
    assert_eq!(s.cells[36].value(), 0);
    assert_eq!(s.cells[37].value(), 0);
    assert_eq!(s.cells[38].value(), 0);
    assert_eq!(s.cells[39].value(), 0);
    assert_eq!(s.cells[40].value(), 0);
    assert_eq!(s.cells[41].value(), 8);
    assert_eq!(s.cells[42].value(), 0);
    assert_eq!(s.cells[43].value(), 0);
    assert_eq!(s.cells[44].value(), 0);
    assert_eq!(s.cells[45].value(), 2);
    assert_eq!(s.cells[46].value(), 0);
    assert_eq!(s.cells[47].value(), 0);
    assert_eq!(s.cells[48].value(), 0);
    assert_eq!(s.cells[49].value(), 0);
    assert_eq!(s.cells[50].value(), 0);
    assert_eq!(s.cells[51].value(), 0);
    assert_eq!(s.cells[52].value(), 8);
    assert_eq!(s.cells[53].value(), 0);
    assert_eq!(s.cells[54].value(), 9);
    assert_eq!(s.cells[55].value(), 2);
    assert_eq!(s.cells[56].value(), 0);
    assert_eq!(s.cells[57].value(), 0);
    assert_eq!(s.cells[58].value(), 7);
    assert_eq!(s.cells[59].value(), 0);
    assert_eq!(s.cells[60].value(), 0);
    assert_eq!(s.cells[61].value(), 5);
    assert_eq!(s.cells[62].value(), 0);
    assert_eq!(s.cells[63].value(), 0);
    assert_eq!(s.cells[64].value(), 7);
    assert_eq!(s.cells[65].value(), 3);
    assert_eq!(s.cells[66].value(), 0);
    assert_eq!(s.cells[67].value(), 0);
    assert_eq!(s.cells[68].value(), 6);
    assert_eq!(s.cells[69].value(), 0);
    assert_eq!(s.cells[70].value(), 0);
    assert_eq!(s.cells[71].value(), 0);
    assert_eq!(s.cells[72].value(), 0);
    assert_eq!(s.cells[73].value(), 0);
    assert_eq!(s.cells[74].value(), 1);
    assert_eq!(s.cells[75].value(), 0);
    assert_eq!(s.cells[76].value(), 0);
    assert_eq!(s.cells[77].value(), 9);
    assert_eq!(s.cells[78].value(), 0);
    assert_eq!(s.cells[79].value(), 0);
    assert_eq!(s.cells[80].value(), 2);
}
