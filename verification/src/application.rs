pub mod trading_app;
