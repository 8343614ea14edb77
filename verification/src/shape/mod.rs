pub mod loopsubdiv;
