use mc_mot::assignment::{linear_assignment, UNASSIGNED};

fn total(cost: &[Vec<i64>], assigned: &[usize]) -> i64 {
    let mut sum = 0;
    for (i, &j) in assigned.iter().enumerate() {
        if j != UNASSIGNED {
            sum += cost[i][j];
        }
    }
    sum
}

fn best(cost: &[Vec<i64>], row: usize, used: &mut Vec<bool>, spare: usize) -> i64 {
    if row == cost.len() {
        return 0;
    }
    let mut lowest = i64::MAX;
    for j in 0..used.len() {
        if !used[j] {
            used[j] = true;
            let rest = best(cost, row + 1, used, spare);
            used[j] = false;
            if rest != i64::MAX {
                lowest = lowest.min(cost[row][j] + rest);
            }
        }
    }
    if spare > 0 {
        let rest = best(cost, row + 1, used, spare - 1);
        lowest = lowest.min(rest);
    }
    lowest
}

#[test]
fn no_rows_give_no_assignment() {
    assert_eq!(linear_assignment(&[]), Vec::<usize>::new());
}

#[test]
fn square_matrix_has_the_lowest_cost() {
    let cost = vec![vec![4, 1, 3], vec![2, 0, 5], vec![3, 2, 2]];
    assert_eq!(linear_assignment(&cost), vec![1, 0, 2]);
}

#[test]
fn wide_matrix_leaves_columns_over() {
    assert_eq!(linear_assignment(&[vec![7, 3, 9]]), vec![1]);
}

#[test]
fn tall_matrix_leaves_rows_over() {
    let cost = vec![vec![-1], vec![-5], vec![-3]];
    assert_eq!(linear_assignment(&cost), vec![UNASSIGNED, 0, UNASSIGNED]);
    assert_eq!(UNASSIGNED, usize::MAX);
}

#[test]
fn rows_without_columns_stay_unassigned() {
    assert_eq!(
        linear_assignment(&[vec![], vec![]]),
        vec![UNASSIGNED, UNASSIGNED]
    );
}

#[test]
fn assignment_is_as_good_as_any() {
    let mut state: u64 = 7;
    for rows in 1..5 {
        for cols in 1..5 {
            for _ in 0..10 {
                let mut cost = Vec::new();
                for _ in 0..rows {
                    let mut row = Vec::new();
                    for _ in 0..cols {
                        state = state
                            .wrapping_mul(6364136223846793005)
                            .wrapping_add(1442695040888963407);
                        row.push(-((state >> 40) as i64 % 100));
                    }
                    cost.push(row);
                }
                let assigned = linear_assignment(&cost);
                let mut seen = vec![false; cols];
                for &j in &assigned {
                    if j != UNASSIGNED {
                        assert!(!seen[j]);
                        seen[j] = true;
                    }
                }
                let spare = if rows > cols { rows - cols } else { 0 };
                let lowest = best(&cost, 0, &mut vec![false; cols], spare);
                assert_eq!(total(&cost, &assigned), lowest);
            }
        }
    }
}
