pub mod no_limit_quantity_knapsack;
